//! What prepared statements do to a table, and that they do what the events
//! they came from do in order.

use vstd::prelude::*;
use vstd::seq_lib::{lemma_multiset_commutative, to_multiset_build};

use crate::collect::lemma_collect;
use crate::data::{index_views, CellView, OldRowView, PartialRowView, UpdatedRowView};
use crate::error::ErrorView;
use crate::identity::row_predicate;
use crate::mutation::MutationView;
use crate::normalize::{
    completed_rows, flushed, fresh_run, has_pending, is_at, normalized, patch_pending, rows_patched, rows_without,
    step, steps, survivors, with_delete, with_insert, with_inserts, with_partial_update,
    with_recovered_update, RowOp, RunView,
};
use crate::ordered::{
    deletes_flushed, inserts_flushed, ordered, ordered_delete, ordered_flushed, ordered_rewrite,
    ordered_steps, OrderedView,
};
use crate::partial_row::{
    completed, completed_cell, lemma_fitting_row_patches, partial_fits, patched_row,
};
use crate::partial_update::{nothing_recovered, strictly_ascending, RecoveredView};
use crate::recovery_plan::touches;
use crate::rewrite::{
    lemma_rewritten_compose, lemma_rewritten_concat, lemma_rewritten_identity, lemma_rewritten_map,
    lemma_rewritten_push, lemma_rewritten_same, lemma_rewritten_source, lemma_rewritten_split,
    lemma_rewritten_target, rewritten, same_items,
};
use crate::schema::SchemaView;

verus! {

/// Whether some of the predicates selects the row. `matches` says which rows a
/// predicate selects.
pub open spec fn hits(
    matches: spec_fn(Seq<char>, Seq<CellView>) -> bool,
    predicates: Seq<Seq<char>>,
    row: Seq<CellView>,
) -> bool {
    exists|k: int| 0 <= k < predicates.len() && matches(#[trigger] predicates[k], row)
}

/// Drops the rows that the predicates select.
pub open spec fn dropping(
    matches: spec_fn(Seq<char>, Seq<CellView>) -> bool,
    predicates: Seq<Seq<char>>,
) -> spec_fn(Seq<CellView>) -> Option<Seq<CellView>> {
    |row: Seq<CellView>|
        if hits(matches, predicates, row) {
            None
        } else {
            Some(row)
        }
}

/// Writes the present values of a partial row over the rows that the predicate
/// selects.
pub open spec fn patching(
    matches: spec_fn(Seq<char>, Seq<CellView>) -> bool,
    predicate: Seq<char>,
    partial: PartialRowView,
) -> spec_fn(Seq<CellView>) -> Option<Seq<CellView>> {
    |row: Seq<CellView>|
        if matches(predicate, row) {
            Some(patched_row(partial, row))
        } else {
            Some(row)
        }
}

/// The rows of a table once one statement ran.
pub open spec fn apply_op(
    matches: spec_fn(Seq<char>, Seq<CellView>) -> bool,
    table: Seq<Seq<CellView>>,
    op: RowOp,
) -> Seq<Seq<CellView>> {
    match op {
        RowOp::Delete { predicates, .. } => rewritten(table, dropping(matches, predicates)),
        RowOp::Insert { rows } => table + rows,
        RowOp::Patch { predicate, partial } => rewritten(
            table,
            patching(matches, predicate, partial),
        ),
    }
}

/// The rows of a table once statements ran, in order.
pub open spec fn apply_ops(
    matches: spec_fn(Seq<char>, Seq<CellView>) -> bool,
    table: Seq<Seq<CellView>>,
    ops: Seq<RowOp>,
) -> Seq<Seq<CellView>>
    decreases ops.len(),
{
    if ops.len() == 0 {
        table
    } else {
        apply_op(matches, apply_ops(matches, table, ops.drop_last()), ops.last())
    }
}

/// The rows of a table once one event happened: an insert appends, a delete
/// removes the rows of its identity, a replace and a full update remove those
/// and append the new row, and a partial update overwrites the values it
/// carries in the rows of its identity.
pub open spec fn apply_event(
    schema: SchemaView,
    matches: spec_fn(Seq<char>, Seq<CellView>) -> bool,
    table: Seq<Seq<CellView>>,
    event: MutationView,
) -> Seq<Seq<CellView>> {
    match event {
        MutationView::Insert(row) => table.push(row),
        MutationView::Delete(old_row) => rewritten(
            table,
            dropping(matches, seq![row_predicate(schema, old_row)->Ok_0]),
        ),
        MutationView::Replace(row) => rewritten(
            table,
            dropping(matches, seq![row_predicate(schema, OldRowView::Full(row))->Ok_0]),
        ).push(row),
        MutationView::Update { delete_row, new_row: UpdatedRowView::Full(row) } => rewritten(
            table,
            dropping(matches, seq![row_predicate(schema, delete_row)->Ok_0]),
        ).push(row),
        MutationView::Update { delete_row, new_row: UpdatedRowView::Partial(partial) } => rewritten(
            table,
            patching(matches, row_predicate(schema, delete_row)->Ok_0, partial),
        ),
    }
}

/// The rows of a table once events happened, in order.
pub open spec fn apply_events(
    schema: SchemaView,
    matches: spec_fn(Seq<char>, Seq<CellView>) -> bool,
    table: Seq<Seq<CellView>>,
    events: Seq<MutationView>,
) -> Seq<Seq<CellView>>
    decreases events.len(),
{
    if events.len() == 0 {
        table
    } else {
        apply_event(
            schema,
            matches,
            apply_events(schema, matches, table, events.drop_last()),
            events.last(),
        )
    }
}

/// A predicate selects the rows whose identity predicate it is.
pub open spec fn by_identity(schema: SchemaView) -> spec_fn(Seq<char>, Seq<CellView>) -> bool {
    |predicate: Seq<char>, row: Seq<CellView>| is_at(schema, Some(row), predicate)
}

proof fn lemma_apply_push(
    matches: spec_fn(Seq<char>, Seq<CellView>) -> bool,
    table: Seq<Seq<CellView>>,
    ops: Seq<RowOp>,
    op: RowOp,
)
    ensures
        apply_ops(matches, table, ops.push(op)) == apply_op(
            matches,
            apply_ops(matches, table, ops),
            op,
        ),
{
    assert(ops.push(op).drop_last() =~= ops);
}

proof fn lemma_drop_none(
    matches: spec_fn(Seq<char>, Seq<CellView>) -> bool,
    table: Seq<Seq<CellView>>,
)
    ensures
        rewritten(table, dropping(matches, Seq::empty())) == table,
{
    lemma_rewritten_identity(table, dropping(matches, Seq::empty()));
}

/// Dropping by some predicates and then by one more is dropping by all of them.
proof fn lemma_drop_more(
    matches: spec_fn(Seq<char>, Seq<CellView>) -> bool,
    table: Seq<Seq<CellView>>,
    predicates: Seq<Seq<char>>,
    more: Seq<char>,
    all: Seq<Seq<char>>,
)
    requires
        all == predicates.push(more) || (all == predicates && predicates.contains(more)),
    ensures
        rewritten(rewritten(table, dropping(matches, predicates)), dropping(matches, seq![more]))
            == rewritten(table, dropping(matches, all)),
{
    assert forall|i: int| 0 <= i < table.len() implies dropping(matches, all)(#[trigger] table[i])
        == (match dropping(matches, predicates)(table[i]) {
        None => None,
        Some(middle) => dropping(matches, seq![more])(middle),
    }) by {
        let row = table[i];
        if hits(matches, predicates, row) {
            let k = choose|k: int| 0 <= k < predicates.len() && matches(#[trigger] predicates[k], row);
            assert(matches(all[k], row));
        }
        if matches(more, row) {
            assert(matches(seq![more][0], row));
            if all == predicates {
                let k = choose|k: int| 0 <= k < predicates.len() && predicates[k] == more;
                assert(matches(all[k], row));
            } else {
                assert(matches(all[predicates.len() as int], row));
            }
        }
        if hits(matches, seq![more], row) {
            let k = choose|k: int| 0 <= k < 1 && matches(#[trigger] seq![more][k], row);
            assert(matches(more, row));
        }
        if hits(matches, all, row) {
            let k = choose|k: int| 0 <= k < all.len() && matches(#[trigger] all[k], row);
            if k < predicates.len() {
                assert(matches(predicates[k], row));
            } else {
                assert(matches(more, row));
            }
        }
    }
    lemma_rewritten_compose(
        table,
        dropping(matches, predicates),
        dropping(matches, seq![more]),
        dropping(matches, all),
    );
}

/// What the table holds once the statements ran and the pending run was
/// applied: the pending deletes come before the pending inserts.
spec fn ordered_rows(
    matches: spec_fn(Seq<char>, Seq<CellView>) -> bool,
    table: Seq<Seq<CellView>>,
    state: OrderedView,
) -> Seq<Seq<CellView>> {
    rewritten(apply_ops(matches, table, state.ops), dropping(matches, state.deletes))
        + state.inserts
}

spec fn one_run(state: OrderedView) -> bool {
    state.deletes.len() == 0 || state.inserts.len() == 0
}

proof fn lemma_inserts_flushed(
    matches: spec_fn(Seq<char>, Seq<CellView>) -> bool,
    table: Seq<Seq<CellView>>,
    state: OrderedView,
)
    requires
        one_run(state),
    ensures
        one_run(inserts_flushed(state)),
        inserts_flushed(state).inserts.len() == 0,
        ordered_rows(matches, table, inserts_flushed(state)) == ordered_rows(matches, table, state),
{
    if state.inserts.len() > 0 {
        let base = apply_ops(matches, table, state.ops);
        lemma_apply_push(matches, table, state.ops, RowOp::Insert { rows: state.inserts });
        assert(state.deletes =~= Seq::empty());
        lemma_drop_none(matches, base);
        lemma_drop_none(matches, base + state.inserts);
        assert(ordered_rows(matches, table, inserts_flushed(state)) =~= ordered_rows(
            matches,
            table,
            state,
        ));
    }
}

proof fn lemma_deletes_flushed(
    matches: spec_fn(Seq<char>, Seq<CellView>) -> bool,
    table: Seq<Seq<CellView>>,
    state: OrderedView,
)
    ensures
        deletes_flushed(state).deletes.len() == 0,
        deletes_flushed(state).inserts == state.inserts,
        ordered_rows(matches, table, deletes_flushed(state)) == ordered_rows(matches, table, state),
{
    if state.deletes.len() > 0 {
        let base = apply_ops(matches, table, state.ops);
        let op = ordered_delete(state.deletes, crate::mutation::DeleteOrigin::Delete);
        lemma_apply_push(matches, table, state.ops, op);
        lemma_drop_none(matches, rewritten(base, dropping(matches, state.deletes)));
        assert(deletes_flushed(state).deletes =~= Seq::empty());
    }
}

proof fn lemma_ordered_flushed(
    matches: spec_fn(Seq<char>, Seq<CellView>) -> bool,
    table: Seq<Seq<CellView>>,
    state: OrderedView,
)
    requires
        one_run(state),
    ensures
        apply_ops(matches, table, ordered_flushed(state).ops) == ordered_rows(matches, table, state),
        ordered_flushed(state).deletes.len() == 0,
        ordered_flushed(state).inserts.len() == 0,
{
    lemma_inserts_flushed(matches, table, state);
    lemma_deletes_flushed(matches, table, inserts_flushed(state));
    let clear = ordered_flushed(state);
    assert(clear.deletes =~= Seq::empty());
    lemma_drop_none(matches, apply_ops(matches, table, clear.ops));
    assert(apply_ops(matches, table, clear.ops) =~= ordered_rows(matches, table, clear));
}

proof fn lemma_ordered_steps(
    schema: SchemaView,
    matches: spec_fn(Seq<char>, Seq<CellView>) -> bool,
    table: Seq<Seq<CellView>>,
    events: Seq<MutationView>,
)
    requires
        ordered_steps(schema, events) is Ok,
    ensures
        one_run(ordered_steps(schema, events)->Ok_0),
        ordered_rows(matches, table, ordered_steps(schema, events)->Ok_0) == apply_events(
            schema,
            matches,
            table,
            events,
        ),
    decreases events.len(),
{
    if events.len() == 0 {
        lemma_drop_none(matches, table);
        assert(ordered_rows(matches, table, ordered_steps(schema, events)->Ok_0) =~= table);
    } else {
        let earlier = events.drop_last();
        let event = events.last();
        lemma_ordered_steps(schema, matches, table, earlier);
        let state = ordered_steps(schema, earlier)->Ok_0;
        let next = ordered_steps(schema, events)->Ok_0;
        let held = ordered_rows(matches, table, state);
        match event {
            MutationView::Insert(row) => {
                lemma_deletes_flushed(matches, table, state);
                assert(ordered_rows(matches, table, next) =~= held.push(row));
            },
            MutationView::Delete(old_row) => {
                let predicate = row_predicate(schema, old_row)->Ok_0;
                lemma_inserts_flushed(matches, table, state);
                let clear = inserts_flushed(state);
                let base = apply_ops(matches, table, clear.ops);
                lemma_drop_more(matches, base, clear.deletes, predicate, next.deletes);
                let dropped = rewritten(base, dropping(matches, clear.deletes));
                assert(clear.inserts =~= Seq::empty());
                assert(held =~= dropped);
                assert(ordered_rows(matches, table, next) =~= rewritten(
                    base,
                    dropping(matches, next.deletes),
                ));
            },
            MutationView::Update { delete_row, new_row } => {
                let predicate = row_predicate(schema, delete_row)->Ok_0;
                lemma_ordered_flushed(matches, table, state);
                match new_row {
                    UpdatedRowView::Full(row) => {
                        lemma_ordered_rewrite(
                            matches,
                            table,
                            state,
                            predicate,
                            row,
                            crate::mutation::DeleteOrigin::Update,
                        );
                    },
                    UpdatedRowView::Partial(partial) => {
                        let clear = ordered_flushed(state);
                        lemma_apply_push(
                            matches,
                            table,
                            clear.ops,
                            RowOp::Patch { predicate, partial },
                        );
                        assert(next.deletes =~= Seq::empty());
                        lemma_drop_none(matches, apply_ops(matches, table, next.ops));
                        assert(ordered_rows(matches, table, next) =~= apply_ops(
                            matches,
                            table,
                            next.ops,
                        ));
                    },
                }
            },
            MutationView::Replace(row) => {
                lemma_ordered_rewrite(
                    matches,
                    table,
                    state,
                    row_predicate(schema, OldRowView::Full(row))->Ok_0,
                    row,
                    crate::mutation::DeleteOrigin::Replace,
                );
            },
        }
    }
}

proof fn lemma_ordered_rewrite(
    matches: spec_fn(Seq<char>, Seq<CellView>) -> bool,
    table: Seq<Seq<CellView>>,
    state: OrderedView,
    predicate: Seq<char>,
    row: Seq<CellView>,
    origin: crate::mutation::DeleteOrigin,
)
    requires
        one_run(state),
    ensures
        one_run(ordered_rewrite(state, predicate, row, origin)),
        ordered_rows(matches, table, ordered_rewrite(state, predicate, row, origin)) == rewritten(
            ordered_rows(matches, table, state),
            dropping(matches, seq![predicate]),
        ).push(row),
{
    lemma_ordered_flushed(matches, table, state);
    let clear = ordered_flushed(state);
    let next = ordered_rewrite(state, predicate, row, origin);
    let delete = ordered_delete(seq![predicate], origin);
    let insert = RowOp::Insert { rows: seq![row] };
    lemma_apply_push(matches, table, clear.ops, delete);
    lemma_apply_push(matches, table, clear.ops.push(delete), insert);
    assert(next.deletes =~= Seq::empty());
    lemma_drop_none(matches, apply_ops(matches, table, next.ops));
    assert(ordered_rows(matches, table, next) =~= rewritten(
        ordered_rows(matches, table, state),
        dropping(matches, seq![predicate]),
    ).push(row));
}

/// Ordered statements leave a table with exactly the rows, in the same order,
/// that the events leave it with one by one, whatever rows the predicates
/// select.
pub proof fn law_ordered_statements_replay_events(
    schema: SchemaView,
    matches: spec_fn(Seq<char>, Seq<CellView>) -> bool,
    table: Seq<Seq<CellView>>,
    events: Seq<MutationView>,
)
    requires
        ordered(schema, events) is Ok,
    ensures
        apply_ops(matches, table, ordered(schema, events)->Ok_0) == apply_events(
            schema,
            matches,
            table,
            events,
        ),
{
    lemma_ordered_steps(schema, matches, table, events);
    lemma_ordered_flushed(matches, table, ordered_steps(schema, events)->Ok_0);
}

/// The values of a row in the given columns.
pub open spec fn projected(row: Seq<CellView>, columns: Seq<usize>) -> Seq<CellView> {
    Seq::new(columns.len(), |k: int| row[columns[k] as int])
}

/// Reads the given columns of the rows at one identity.
pub open spec fn reading(
    schema: SchemaView,
    predicate: Seq<char>,
    columns: Seq<usize>,
) -> spec_fn(Seq<CellView>) -> Option<Seq<CellView>> {
    |row: Seq<CellView>|
        if is_at(schema, Some(row), predicate) {
            Some(projected(row, columns))
        } else {
            None
        }
}

/// Whether what was read back is what the table stores: each requested identity
/// among `relevant` carries the recovered columns of exactly its stored rows, in
/// any order.
pub open spec fn recovered_from(
    schema: SchemaView,
    table: Seq<Seq<CellView>>,
    recovered: RecoveredView,
    relevant: Set<Seq<char>>,
) -> bool {
    &&& strictly_ascending(recovered.columns)
    &&& forall|k: int|
        0 <= k < recovered.columns.len() ==> #[trigger] recovered.columns[k] < schema.columns.len()
    &&& forall|p: Seq<char>|
        recovered.rows.dom().contains(p) && relevant.contains(p) ==> same_items(
            #[trigger] recovered.rows[p],
            rewritten(table, reading(schema, p, recovered.columns)),
        )
}

/// The identities that events remove or rewrite.
pub open spec fn touched_identities(schema: SchemaView, events: Seq<MutationView>) -> Set<Seq<char>> {
    Set::new(
        |p: Seq<char>|
            exists|j: int| 0 <= j < events.len() && touches(schema, #[trigger] events[j], p),
    )
}

/// Whether every partial update among the events fits the table.
pub open spec fn partial_rows_fit(schema: SchemaView, events: Seq<MutationView>) -> bool {
    forall|i: int|
        0 <= i < events.len() ==> (#[trigger] events[i] matches MutationView::Update {
            new_row: UpdatedRowView::Partial(partial),
            ..
        } ==> partial_fits(partial, schema.columns.len()))
}

/// What the table holds once the flushed statements ran, the pending deletes
/// were applied and the pending rows appended.
spec fn run_rows(schema: SchemaView, table: Seq<Seq<CellView>>, run: RunView) -> Seq<
    Seq<CellView>,
> {
    rewritten(
        apply_ops(by_identity(schema), table, run.ops),
        dropping(by_identity(schema), run.deleted),
    ) + survivors(run.rows)
}

proof fn lemma_survivors_push(rows: Seq<Option<Seq<CellView>>>, row: Option<Seq<CellView>>)
    ensures
        survivors(rows.push(row)) == (match row {
            None => survivors(rows),
            Some(row) => survivors(rows).push(row),
        }),
{
    assert(rows.push(row).drop_last() =~= rows);
}

/// Dropping the pending rows at an identity drops them from the survivors.
proof fn lemma_survivors_without(
    schema: SchemaView,
    rows: Seq<Option<Seq<CellView>>>,
    predicate: Seq<char>,
)
    ensures
        survivors(rows_without(schema, rows, predicate)) == rewritten(
            survivors(rows),
            dropping(by_identity(schema), seq![predicate]),
        ),
    decreases rows.len(),
{
    let change = dropping(by_identity(schema), seq![predicate]);
    let all = rows_without(schema, rows, predicate);
    if rows.len() > 0 {
        let shorter = rows.drop_last();
        lemma_survivors_without(schema, shorter, predicate);
        assert(all.drop_last() =~= rows_without(schema, shorter, predicate));
        if let Some(row) = rows.last() {
            lemma_rewritten_push(survivors(shorter), row, change);
            lemma_hits_one(schema, predicate, row);
        }
    }
}

proof fn lemma_hits_one(schema: SchemaView, predicate: Seq<char>, row: Seq<CellView>)
    ensures
        hits(by_identity(schema), seq![predicate], row) == is_at(schema, Some(row), predicate),
{
    let matches = by_identity(schema);
    if is_at(schema, Some(row), predicate) {
        assert(matches(seq![predicate][0], row));
    }
    if hits(matches, seq![predicate], row) {
        let k = choose|k: int| 0 <= k < 1 && matches(#[trigger] seq![predicate][k], row);
        assert(seq![predicate][k] == predicate);
    }
}

/// Patching the pending rows at an identity patches the survivors.
proof fn lemma_survivors_patched(
    schema: SchemaView,
    rows: Seq<Option<Seq<CellView>>>,
    predicate: Seq<char>,
    partial: PartialRowView,
)
    ensures
        survivors(rows_patched(schema, rows, predicate, partial)) == rewritten(
            survivors(rows),
            patching(by_identity(schema), predicate, partial),
        ),
    decreases rows.len(),
{
    let change = patching(by_identity(schema), predicate, partial);
    let all = rows_patched(schema, rows, predicate, partial);
    if rows.len() > 0 {
        let shorter = rows.drop_last();
        lemma_survivors_patched(schema, shorter, predicate, partial);
        assert(all.drop_last() =~= rows_patched(schema, shorter, predicate, partial));
        if let Some(row) = rows.last() {
            lemma_rewritten_push(survivors(shorter), row, change);
        }
    }
}

proof fn lemma_run_delete(
    schema: SchemaView,
    table: Seq<Seq<CellView>>,
    run: RunView,
    predicate: Seq<char>,
    key: Seq<crate::key_set::ComponentView>,
    origin: crate::mutation::DeleteOrigin,
)
    ensures
        run_rows(schema, table, with_delete(schema, run, predicate, key, origin)) == rewritten(
            run_rows(schema, table, run),
            dropping(by_identity(schema), seq![predicate]),
        ),
{
    let matches = by_identity(schema);
    let next = with_delete(schema, run, predicate, key, origin);
    let base = apply_ops(matches, table, run.ops);
    lemma_rewritten_concat(
        rewritten(base, dropping(matches, run.deleted)),
        survivors(run.rows),
        dropping(matches, seq![predicate]),
    );
    lemma_drop_more(matches, base, run.deleted, predicate, next.deleted);
    lemma_survivors_without(schema, run.rows, predicate);
}

proof fn lemma_run_insert(
    schema: SchemaView,
    table: Seq<Seq<CellView>>,
    run: RunView,
    row: Seq<CellView>,
)
    requires
        with_insert(schema, run, row) is Ok,
    ensures
        run_rows(schema, table, with_insert(schema, run, row)->Ok_0) == run_rows(
            schema,
            table,
            run,
        ).push(row),
{
    lemma_survivors_push(run.rows, Some(row));
    assert(run_rows(schema, table, with_insert(schema, run, row)->Ok_0) =~= run_rows(
        schema,
        table,
        run,
    ).push(row));
}

proof fn lemma_run_inserts(
    schema: SchemaView,
    table: Seq<Seq<CellView>>,
    run: RunView,
    rows: Seq<Seq<CellView>>,
    count: nat,
)
    requires
        count <= rows.len(),
        with_inserts(schema, run, rows, count) is Ok,
    ensures
        run_rows(schema, table, with_inserts(schema, run, rows, count)->Ok_0) == run_rows(
            schema,
            table,
            run,
        ) + rows.take(count as int),
        with_inserts(schema, run, rows, count)->Ok_0.ops == run.ops,
        with_inserts(schema, run, rows, count)->Ok_0.recovered == run.recovered,
    decreases count,
{
    let held = run_rows(schema, table, run);
    if count == 0 {
        assert(held + rows.take(0) =~= held);
    } else {
        let fewer = (count - 1) as nat;
        lemma_run_inserts(schema, table, run, rows, fewer);
        let middle = with_inserts(schema, run, rows, fewer)->Ok_0;
        lemma_run_insert(schema, table, middle, rows[count - 1]);
        assert(held + rows.take(count as int) =~= (held + rows.take(fewer as int)).push(
            rows[count - 1],
        ));
    }
}

/// A run whose stored rows at an identity are all gone is patched in memory.
proof fn lemma_run_patch(
    schema: SchemaView,
    table: Seq<Seq<CellView>>,
    run: RunView,
    predicate: Seq<char>,
    partial: PartialRowView,
)
    requires
        forall|i: int|
            0 <= i < rewritten(
                apply_ops(by_identity(schema), table, run.ops),
                dropping(by_identity(schema), run.deleted),
            ).len() ==> !is_at(
                schema,
                Some(
                    #[trigger] rewritten(
                        apply_ops(by_identity(schema), table, run.ops),
                        dropping(by_identity(schema), run.deleted),
                    )[i],
                ),
                predicate,
            ),
    ensures
        run_rows(
            schema,
            table,
            RunView { rows: rows_patched(schema, run.rows, predicate, partial), ..run },
        ) == rewritten(
            run_rows(schema, table, run),
            patching(by_identity(schema), predicate, partial),
        ),
{
    let matches = by_identity(schema);
    let change = patching(matches, predicate, partial);
    let kept = rewritten(apply_ops(matches, table, run.ops), dropping(matches, run.deleted));
    lemma_rewritten_concat(kept, survivors(run.rows), change);
    lemma_rewritten_identity(kept, change);
    lemma_survivors_patched(schema, run.rows, predicate, partial);
}

/// No row is left at an identity that was dropped.
proof fn lemma_dropped_are_gone(
    schema: SchemaView,
    table: Seq<Seq<CellView>>,
    predicates: Seq<Seq<char>>,
    predicate: Seq<char>,
)
    requires
        predicates.contains(predicate),
    ensures
        forall|i: int|
            0 <= i < rewritten(table, dropping(by_identity(schema), predicates)).len() ==> !is_at(
                schema,
                Some(#[trigger] rewritten(table, dropping(by_identity(schema), predicates))[i]),
                predicate,
            ),
{
    let matches = by_identity(schema);
    let kept = rewritten(table, dropping(matches, predicates));
    let j = choose|j: int| 0 <= j < predicates.len() && predicates[j] == predicate;
    assert forall|i: int| 0 <= i < kept.len() implies !is_at(
        schema,
        Some(#[trigger] kept[i]),
        predicate,
    ) by {
        let source = lemma_rewritten_source(table, dropping(matches, predicates), i);
        if is_at(schema, Some(kept[i]), predicate) {
            assert(matches(predicates[j], table[source]));
        }
    }
}

/// A table without rows at an identity has none left after a drop either.
proof fn lemma_absent_stays_absent(
    schema: SchemaView,
    table: Seq<Seq<CellView>>,
    columns: Seq<usize>,
    predicates: Seq<Seq<char>>,
    predicate: Seq<char>,
)
    requires
        rewritten(table, reading(schema, predicate, columns)).len() == 0,
    ensures
        forall|i: int|
            0 <= i < rewritten(table, dropping(by_identity(schema), predicates)).len() ==> !is_at(
                schema,
                Some(#[trigger] rewritten(table, dropping(by_identity(schema), predicates))[i]),
                predicate,
            ),
{
    let matches = by_identity(schema);
    let kept = rewritten(table, dropping(matches, predicates));
    assert forall|i: int| 0 <= i < kept.len() implies !is_at(
        schema,
        Some(#[trigger] kept[i]),
        predicate,
    ) by {
        let source = lemma_rewritten_source(table, dropping(matches, predicates), i);
        if is_at(schema, Some(kept[i]), predicate) {
            lemma_rewritten_target(table, reading(schema, predicate, columns), source);
        }
    }
}

/// Completing the recovered columns of a row gives the patched row.
proof fn lemma_completed_is_patched(
    schema: SchemaView,
    partial: PartialRowView,
    columns: Seq<usize>,
    stored: Seq<CellView>,
    row: Seq<CellView>,
)
    requires
        partial_fits(partial, schema.columns.len()),
        strictly_ascending(columns),
        row.len() == schema.columns.len(),
        completed(schema, partial, index_views(columns), stored) is Ok,
    ensures
        completed(schema, partial, index_views(columns), projected(row, columns)) == Ok::<
            Seq<CellView>,
            ErrorView,
        >(patched_row(partial, row)),
{
    let positions = index_views(columns);
    let width = schema.columns.len();
    let read = |c: int| completed_cell(schema, partial, positions, stored, c);
    let made = |c: int|
        completed_cell(schema, partial, positions, projected(row, columns), c);
    lemma_collect(partial.total, read);
    lemma_collect(partial.total, made);
    lemma_fitting_row_patches(partial, width);
    assert forall|c: int| 0 <= c < width implies #[trigger] made(c) == Ok::<CellView, ErrorView>(
        patched_row(partial, row)[c],
    ) by {
        assert(read(c) is Ok);
        if partial.missing.contains(c) {
            assert(positions.contains(c));
            let k = positions.index_of(c);
            assert(positions[k] == c);
            assert(projected(row, columns)[k] == row[columns[k] as int]);
        }
    }
    let outcome = completed(schema, partial, positions, projected(row, columns));
    assert(outcome is Ok);
    assert forall|c: int| 0 <= c < width implies outcome->Ok_0[c] == patched_row(partial, row)[c] by {
        assert(made(c) == Ok::<CellView, ErrorView>(outcome->Ok_0[c]));
    }
    assert(outcome->Ok_0 =~= patched_row(partial, row));
}

/// Patches the rows at one identity and drops all others.
spec fn only_patched(
    schema: SchemaView,
    predicate: Seq<char>,
    partial: PartialRowView,
) -> spec_fn(Seq<CellView>) -> Option<Seq<CellView>> {
    |row: Seq<CellView>|
        if is_at(schema, Some(row), predicate) {
            Some(patched_row(partial, row))
        } else {
            None
        }
}

/// The completed rows of an identity are its stored rows, patched.
proof fn lemma_completed_rows(
    schema: SchemaView,
    table: Seq<Seq<CellView>>,
    recovered: RecoveredView,
    predicate: Seq<char>,
    partial: PartialRowView,
    relevant: Set<Seq<char>>,
)
    requires
        forall|i: int| 0 <= i < table.len() ==> (#[trigger] table[i]).len() == schema.columns.len(),
        recovered_from(schema, table, recovered, relevant),
        relevant.contains(predicate),
        recovered.rows.dom().contains(predicate),
        recovered.rows[predicate].len() > 0,
        partial_fits(partial, schema.columns.len()),
        completed_rows(schema, partial, recovered, predicate) is Ok,
    ensures
        same_items(
            completed_rows(schema, partial, recovered, predicate)->Ok_0,
            rewritten(table, only_patched(schema, predicate, partial)),
        ),
{
    let columns = recovered.columns;
    let positions = index_views(columns);
    let stored = recovered.rows[predicate];
    let steps = |k: int| completed(schema, partial, positions, stored[k]);
    lemma_collect(stored.len(), steps);
    let done = completed_rows(schema, partial, recovered, predicate)->Ok_0;
    let finish = |values: Seq<CellView>|
        match completed(schema, partial, positions, values) {
            Err(_) => None,
            Ok(row) => Some(row),
        };
    assert forall|k: int| 0 <= k < stored.len() implies finish(#[trigger] stored[k]) is Some by {
        assert(steps(k) is Ok);
    }
    lemma_rewritten_map(stored, finish);
    assert(rewritten(stored, finish) =~= done) by {
        assert forall|k: int| 0 <= k < stored.len() implies rewritten(stored, finish)[k] == done[k] by {
            assert(steps(k) == Ok::<Seq<CellView>, ErrorView>(done[k]));
            assert(finish(stored[k]) == Some(rewritten(stored, finish)[k]));
        }
    }
    let read = reading(schema, predicate, columns);
    lemma_rewritten_same(stored, rewritten(table, read), finish);
    assert(steps(0) is Ok);
    assert forall|i: int| 0 <= i < table.len() implies only_patched(schema, predicate, partial)(
        #[trigger] table[i],
    ) == (match read(table[i]) {
        None => None,
        Some(middle) => finish(middle),
    }) by {
        if is_at(schema, Some(table[i]), predicate) {
            lemma_completed_is_patched(schema, partial, columns, stored[0], table[i]);
        }
    }
    lemma_rewritten_compose(table, read, finish, only_patched(schema, predicate, partial));
}

/// Deleting an identity's stored rows and appending them completed is patching
/// them.
proof fn lemma_run_recovered(
    schema: SchemaView,
    table: Seq<Seq<CellView>>,
    run: RunView,
    predicate: Seq<char>,
    key: Seq<crate::key_set::ComponentView>,
    partial: PartialRowView,
    relevant: Set<Seq<char>>,
)
    requires
        forall|i: int| 0 <= i < table.len() ==> (#[trigger] table[i]).len() == schema.columns.len(),
        run.ops.len() == 0,
        recovered_from(schema, table, run.recovered, relevant),
        relevant.contains(predicate),
        run.recovered.rows.dom().contains(predicate),
        run.recovered.rows[predicate].len() > 0,
        !run.deleted.contains(predicate),
        partial_fits(partial, schema.columns.len()),
        with_recovered_update(schema, run, predicate, key, partial) is Ok,
    ensures
        same_items(
            run_rows(
                schema,
                table,
                with_recovered_update(schema, run, predicate, key, partial)->Ok_0,
            ),
            rewritten(
                run_rows(schema, table, run),
                patching(by_identity(schema), predicate, partial),
            ),
        ),
        with_recovered_update(schema, run, predicate, key, partial)->Ok_0.ops == run.ops,
        with_recovered_update(schema, run, predicate, key, partial)->Ok_0.recovered
            == run.recovered,
{
    let matches = by_identity(schema);
    let done = completed_rows(schema, partial, run.recovered, predicate)->Ok_0;
    let middle = RunView {
        rows: patch_pending(schema, run.rows, predicate, partial)->Ok_0,
        deleted: run.deleted.push(predicate),
        keys: run.keys.push(key),
        origin: Some(
            crate::normalize::merged_origin(run.origin, crate::mutation::DeleteOrigin::Update),
        ),
        ..run
    };
    lemma_run_inserts(schema, table, middle, done, done.len());
    assert(done.take(done.len() as int) =~= done);
    let kept = rewritten(table, dropping(matches, run.deleted));
    let less = rewritten(table, dropping(matches, middle.deleted));
    let patch = patching(matches, predicate, partial);
    let only = only_patched(schema, predicate, partial);
    let held = survivors(run.rows);
    lemma_rewritten_concat(kept, held, patch);
    lemma_survivors_patched(schema, run.rows, predicate, partial);
    lemma_drop_more(matches, table, run.deleted, predicate, middle.deleted);
    // The kept rows, patched, are those at other identities and those at this one.
    let others = dropping(matches, seq![predicate]);
    assert forall|i: int| 0 <= i < kept.len() implies {
        ||| only(#[trigger] kept[i]) is None && others(kept[i]) == patch(kept[i])
        ||| others(kept[i]) is None && only(kept[i]) == patch(kept[i])
    } by {
        lemma_hits_one(schema, predicate, kept[i]);
    }
    lemma_rewritten_split(kept, patch, others, only);
    // No identity that was dropped before is this one.
    assert forall|i: int| 0 <= i < table.len() implies only(#[trigger] table[i]) == (match dropping(
        matches,
        run.deleted,
    )(table[i]) {
        None => None,
        Some(row) => only(row),
    }) by {
        if is_at(schema, Some(table[i]), predicate) && hits(matches, run.deleted, table[i]) {
            let k = choose|k: int|
                0 <= k < run.deleted.len() && matches(#[trigger] run.deleted[k], table[i]);
            assert(run.deleted[k] == predicate);
        }
    }
    lemma_rewritten_compose(table, dropping(matches, run.deleted), only, only);
    lemma_completed_rows(schema, table, run.recovered, predicate, partial, relevant);
    // Put together, up to the order of rows.
    let patched_held = rewritten(held, patch);
    lemma_multiset_commutative(less, rewritten(kept, only));
    lemma_multiset_commutative(rewritten(kept, patch), patched_held);
    lemma_multiset_commutative(less, patched_held);
    lemma_multiset_commutative(less + patched_held, done);
    assert((less + patched_held + done).to_multiset() =~= (rewritten(kept, patch)
        + patched_held).to_multiset());
    assert(run_rows(schema, table, middle) =~= less + patched_held);
}

/// The flushed statements leave what the run holds.
proof fn lemma_run_flushed(schema: SchemaView, table: Seq<Seq<CellView>>, run: RunView)
    ensures
        apply_ops(by_identity(schema), table, flushed(run).ops) == run_rows(schema, table, run),
{
    let matches = by_identity(schema);
    let base = apply_ops(matches, table, run.ops);
    let kept = rewritten(base, dropping(matches, run.deleted));
    let delete = RowOp::Delete {
        predicates: run.deleted,
        keys: Some(run.keys),
        origin: match run.origin {
            None => crate::mutation::DeleteOrigin::Mixed,
            Some(origin) => origin,
        },
    };
    let insert = RowOp::Insert { rows: survivors(run.rows) };
    let middle = if run.deleted.len() > 0 {
        run.ops.push(delete)
    } else {
        run.ops
    };
    if run.deleted.len() > 0 {
        lemma_apply_push(matches, table, run.ops, delete);
    } else {
        assert(run.deleted =~= Seq::empty());
        lemma_drop_none(matches, base);
    }
    assert(apply_ops(matches, table, middle) == kept);
    if run.rows.len() > 0 {
        lemma_apply_push(matches, table, middle, insert);
        assert(flushed(run).ops =~= middle.push(insert));
    } else {
        assert(flushed(run).ops =~= middle);
        assert(kept + survivors(run.rows) =~= kept);
    }
}

/// One event happens to the same rows in whatever order they are stored.
pub proof fn lemma_event_same(
    schema: SchemaView,
    matches: spec_fn(Seq<char>, Seq<CellView>) -> bool,
    left: Seq<Seq<CellView>>,
    right: Seq<Seq<CellView>>,
    event: MutationView,
)
    requires
        same_items(left, right),
    ensures
        same_items(
            apply_event(schema, matches, left, event),
            apply_event(schema, matches, right, event),
        ),
{
    match event {
        MutationView::Insert(row) => {
            to_multiset_build(left, row);
            to_multiset_build(right, row);
        },
        MutationView::Delete(old_row) => {
            lemma_rewritten_same(
                left,
                right,
                dropping(matches, seq![row_predicate(schema, old_row)->Ok_0]),
            );
        },
        MutationView::Replace(row) => {
            let change = dropping(
                matches,
                seq![row_predicate(schema, OldRowView::Full(row))->Ok_0],
            );
            lemma_rewritten_same(left, right, change);
            to_multiset_build(rewritten(left, change), row);
            to_multiset_build(rewritten(right, change), row);
        },
        MutationView::Update { delete_row, new_row: UpdatedRowView::Full(row) } => {
            let change = dropping(matches, seq![row_predicate(schema, delete_row)->Ok_0]);
            lemma_rewritten_same(left, right, change);
            to_multiset_build(rewritten(left, change), row);
            to_multiset_build(rewritten(right, change), row);
        },
        MutationView::Update { delete_row, new_row: UpdatedRowView::Partial(partial) } => {
            lemma_rewritten_same(
                left,
                right,
                patching(matches, row_predicate(schema, delete_row)->Ok_0, partial),
            );
        },
    }
}

/// Whether what the run still holds of the recovery is what the table stores.
spec fn recovery_is_current(
    schema: SchemaView,
    table: Seq<Seq<CellView>>,
    run: RunView,
    relevant: Set<Seq<char>>,
) -> bool {
    (run.ops.len() == 0 && recovered_from(schema, table, run.recovered, relevant)) || run.recovered
        == nothing_recovered()
}

proof fn lemma_run_partial(
    schema: SchemaView,
    table: Seq<Seq<CellView>>,
    run: RunView,
    predicate: Seq<char>,
    key: Seq<crate::key_set::ComponentView>,
    partial: PartialRowView,
    relevant: Set<Seq<char>>,
)
    requires
        forall|i: int| 0 <= i < table.len() ==> (#[trigger] table[i]).len() == schema.columns.len(),
        recovery_is_current(schema, table, run, relevant),
        relevant.contains(predicate),
        partial_fits(partial, schema.columns.len()),
        with_partial_update(schema, run, predicate, key, partial) is Ok,
    ensures
        recovery_is_current(
            schema,
            table,
            with_partial_update(schema, run, predicate, key, partial)->Ok_0,
            relevant,
        ),
        same_items(
            run_rows(
                schema,
                table,
                with_partial_update(schema, run, predicate, key, partial)->Ok_0,
            ),
            rewritten(
                run_rows(schema, table, run),
                patching(by_identity(schema), predicate, partial),
            ),
        ),
{
    let matches = by_identity(schema);
    let stored = run.recovered.rows;
    let base = apply_ops(matches, table, run.ops);
    if run.deleted.contains(predicate) {
        lemma_dropped_are_gone(schema, base, run.deleted, predicate);
        lemma_run_patch(schema, table, run, predicate, partial);
    } else if has_pending(schema, run.rows, predicate) && stored.dom().contains(predicate)
        && stored[predicate].len() == 0 {
        let read = reading(schema, predicate, run.recovered.columns);
        assert(same_items(stored[predicate], rewritten(table, read)));
        vstd::seq_lib::to_multiset_len(stored[predicate]);
        vstd::seq_lib::to_multiset_len(rewritten(table, read));
        lemma_absent_stays_absent(
            schema,
            table,
            run.recovered.columns,
            run.deleted,
            predicate,
        );
        lemma_run_patch(schema, table, run, predicate, partial);
    } else if stored.dom().contains(predicate) && stored[predicate].len() > 0 {
        lemma_run_recovered(schema, table, run, predicate, key, partial, relevant);
    } else {
        lemma_run_flushed(schema, table, run);
        let clear = flushed(run);
        let next = with_partial_update(schema, run, predicate, key, partial)->Ok_0;
        lemma_apply_push(matches, table, clear.ops, RowOp::Patch { predicate, partial });
        assert(next.deleted =~= Seq::empty());
        lemma_drop_none(matches, apply_ops(matches, table, next.ops));
        assert(run_rows(schema, table, next) =~= apply_ops(matches, table, next.ops));
    }
}

proof fn lemma_run_step(
    schema: SchemaView,
    table: Seq<Seq<CellView>>,
    run: RunView,
    event: MutationView,
    relevant: Set<Seq<char>>,
)
    requires
        forall|i: int| 0 <= i < table.len() ==> (#[trigger] table[i]).len() == schema.columns.len(),
        recovery_is_current(schema, table, run, relevant),
        forall|p: Seq<char>| touches(schema, event, p) ==> relevant.contains(p),
        event matches MutationView::Update { new_row: UpdatedRowView::Partial(partial), .. }
            ==> partial_fits(partial, schema.columns.len()),
        step(schema, run, event) is Ok,
    ensures
        recovery_is_current(schema, table, step(schema, run, event)->Ok_0, relevant),
        same_items(
            run_rows(schema, table, step(schema, run, event)->Ok_0),
            apply_event(schema, by_identity(schema), run_rows(schema, table, run), event),
        ),
{
    let matches = by_identity(schema);
    match event {
        MutationView::Insert(row) => {
            lemma_run_insert(schema, table, run, row);
        },
        MutationView::Delete(old_row) => {
            lemma_run_delete(
                schema,
                table,
                run,
                row_predicate(schema, old_row)->Ok_0,
                crate::identity::row_key(schema, old_row)->Ok_0,
                crate::mutation::DeleteOrigin::Delete,
            );
        },
        MutationView::Replace(row) => {
            let predicate = row_predicate(schema, OldRowView::Full(row))->Ok_0;
            let key = crate::identity::row_key(schema, OldRowView::Full(row))->Ok_0;
            let origin = crate::mutation::DeleteOrigin::Replace;
            lemma_run_delete(schema, table, run, predicate, key, origin);
            lemma_run_insert(
                schema,
                table,
                with_delete(schema, run, predicate, key, origin),
                row,
            );
        },
        MutationView::Update { delete_row, new_row } => {
            let predicate = row_predicate(schema, delete_row)->Ok_0;
            let key = crate::identity::row_key(schema, delete_row)->Ok_0;
            match new_row {
                UpdatedRowView::Full(row) => {
                    let origin = crate::mutation::DeleteOrigin::Update;
                    lemma_run_delete(schema, table, run, predicate, key, origin);
                    lemma_run_insert(
                        schema,
                        table,
                        with_delete(schema, run, predicate, key, origin),
                        row,
                    );
                },
                UpdatedRowView::Partial(partial) => {
                    assert(touches(schema, event, predicate));
                    lemma_run_partial(schema, table, run, predicate, key, partial, relevant);
                },
            }
        },
    }
}

proof fn lemma_run_steps(
    schema: SchemaView,
    table: Seq<Seq<CellView>>,
    recovered: RecoveredView,
    events: Seq<MutationView>,
    relevant: Set<Seq<char>>,
)
    requires
        forall|i: int| 0 <= i < table.len() ==> (#[trigger] table[i]).len() == schema.columns.len(),
        recovered_from(schema, table, recovered, relevant),
        forall|p: Seq<char>| #[trigger]
            touched_identities(schema, events).contains(p) ==> relevant.contains(p),
        partial_rows_fit(schema, events),
        steps(schema, fresh_run(recovered), events) is Ok,
    ensures
        recovery_is_current(
            schema,
            table,
            steps(schema, fresh_run(recovered), events)->Ok_0,
            relevant,
        ),
        same_items(
            run_rows(schema, table, steps(schema, fresh_run(recovered), events)->Ok_0),
            apply_events(schema, by_identity(schema), table, events),
        ),
    decreases events.len(),
{
    let matches = by_identity(schema);
    let start = fresh_run(recovered);
    if events.len() == 0 {
        lemma_drop_none(matches, table);
        assert(run_rows(schema, table, start) =~= table);
    } else {
        let earlier = events.drop_last();
        let event = events.last();
        assert(partial_rows_fit(schema, earlier)) by {
            assert forall|i: int| 0 <= i < earlier.len() implies (
            #[trigger] earlier[i] matches MutationView::Update {
                new_row: UpdatedRowView::Partial(partial),
                ..
            } ==> partial_fits(partial, schema.columns.len())) by {
                assert(earlier[i] == events[i]);
            }
        }
        assert forall|p: Seq<char>| #[trigger]
            touched_identities(schema, earlier).contains(p) implies relevant.contains(p) by {
            let j = choose|j: int|
                0 <= j < earlier.len() && touches(schema, #[trigger] earlier[j], p);
            assert(touches(schema, events[j], p));
            assert(touched_identities(schema, events).contains(p));
        }
        lemma_run_steps(schema, table, recovered, earlier, relevant);
        let run = steps(schema, start, earlier)->Ok_0;
        assert(event == events[events.len() - 1]);
        assert forall|p: Seq<char>| touches(schema, event, p) implies relevant.contains(p) by {
            assert(touches(schema, events[events.len() - 1], p));
            assert(touched_identities(schema, events).contains(p));
        }
        lemma_run_step(schema, table, run, event, relevant);
        lemma_event_same(
            schema,
            matches,
            run_rows(schema, table, run),
            apply_events(schema, matches, table, earlier),
            event,
        );
    }
}

/// Normalized statements leave a table with the rows that the events leave it
/// with one by one, as a multiset: batching deletes and inserts, folding rows in
/// memory and completing partial updates from what was read back change
/// nothing. Predicates select rows by identity, the recovery is what the table
/// stores at the identities that the events touch, and partial rows fit the
/// table.
pub proof fn law_normalized_statements_replay_events(
    schema: SchemaView,
    table: Seq<Seq<CellView>>,
    recovered: RecoveredView,
    events: Seq<MutationView>,
)
    requires
        forall|i: int| 0 <= i < table.len() ==> (#[trigger] table[i]).len() == schema.columns.len(),
        recovered_from(schema, table, recovered, touched_identities(schema, events)),
        partial_rows_fit(schema, events),
        normalized(schema, events, recovered) is Ok,
    ensures
        same_items(
            apply_ops(by_identity(schema), table, normalized(schema, events, recovered)->Ok_0),
            apply_events(schema, by_identity(schema), table, events),
        ),
{
    lemma_run_steps(schema, table, recovered, events, touched_identities(schema, events));
    lemma_run_flushed(schema, table, steps(schema, fresh_run(recovered), events)->Ok_0);
}

} // verus!
