//! Which stored rows a batch of changes needs read back.

use vstd::hash_set::StringHashSet;
use vstd::prelude::*;

use crate::backlog::{
    carried_bytes, law_tracked_size_counts_every_image, tracked_size, tracked_views,
    DuckLakeStreamingBatchConfig, TrackedTableMutation, TrackedView,
};
use crate::data::{index_views, OldRowView, OldTableRow, UpdatedRowView, UpdatedTableRow};
use crate::equivalence::{reading, recovered_from, touched_identities};
use crate::error::{ErrorView, EtlError};
use crate::identity::{
    delete_key_components, delete_predicate_from_row, row_key, row_predicate, DeletePredicateRowRef,
};
use crate::mutation::{mutation_size_hint, mutation_views, MutationView, TableMutation};
use crate::normalize::{
    fresh_run, has_pending, step, steps, with_inserts, with_partial_update, RunView,
};
use crate::partial_update::{
    is_requested, recovery_key_views, PartialUpdateRecoveryKey, PartialUpdateRecoveryRequest,
    RecoveredView, RecoveryKeyView,
};
use crate::rewrite::{rewritten, same_items};
use crate::schema::{ReplicatedTableSchema, SchemaView};

verus! {

/// What planning holds between two events: the identities to read, the columns
/// some of them leave out, and every identity seen.
pub struct PlanView {
    pub keys: Seq<RecoveryKeyView>,
    pub columns: Set<int>,
    pub seen: Set<Seq<char>>,
}

/// The identity an event removes or rewrites; an insert has none.
pub open spec fn event_identity(schema: SchemaView, event: MutationView) -> Option<OldRowView> {
    match event {
        MutationView::Insert(_) => None,
        MutationView::Delete(old_row) => Some(old_row),
        MutationView::Replace(row) => Some(OldRowView::Full(row)),
        MutationView::Update { delete_row, .. } => Some(delete_row),
    }
}

/// The columns an event leaves out.
pub open spec fn event_gaps(event: MutationView) -> Seq<int> {
    match event {
        MutationView::Update { new_row: UpdatedRowView::Partial(partial), .. } => partial.missing,
        _ => Seq::empty(),
    }
}

/// The plan once one event was taken in: the first event at an identity has it
/// read when that event leaves columns out.
pub open spec fn plan_step(
    schema: SchemaView,
    plan: PlanView,
    event: MutationView,
    index: int,
) -> Result<PlanView, ErrorView> {
    match event_identity(schema, event) {
        None => Ok(plan),
        Some(old_row) => match row_predicate(schema, old_row) {
            Err(error) => Err(error),
            Ok(predicate) => if plan.seen.contains(predicate) || event_gaps(event).len() == 0 {
                Ok(PlanView { seen: plan.seen.insert(predicate), ..plan })
            } else {
                Ok(
                    PlanView {
                        keys: plan.keys.push(
                            RecoveryKeyView {
                                predicate,
                                components: row_key(schema, old_row)->Ok_0,
                                mutation_index: index,
                            },
                        ),
                        columns: plan.columns.union(event_gaps(event).to_set()),
                        seen: plan.seen.insert(predicate),
                    },
                )
            },
        },
    }
}

/// The plan of events, in order.
pub open spec fn planned(schema: SchemaView, events: Seq<MutationView>) -> Result<
    PlanView,
    ErrorView,
>
    decreases events.len(),
{
    if events.len() == 0 {
        Ok(PlanView { keys: Seq::empty(), columns: Set::empty(), seen: Set::empty() })
    } else {
        match planned(schema, events.drop_last()) {
            Err(error) => Err(error),
            Ok(plan) => plan_step(schema, plan, events.last(), events.len() - 1),
        }
    }
}

/// Contents of borrowed mutations.
pub open spec fn borrowed_views(mutations: Seq<&TableMutation>) -> Seq<MutationView> {
    mutations.map_values(|m: &TableMutation| m@)
}

proof fn lemma_planned_fails(schema: SchemaView, events: Seq<MutationView>, shorter: int)
    requires
        0 <= shorter <= events.len(),
        planned(schema, events.take(shorter)) is Err,
    ensures
        planned(schema, events) == planned(schema, events.take(shorter)),
    decreases events.len(),
{
    if shorter == events.len() {
        assert(events.take(shorter) =~= events);
    } else {
        assert(events.drop_last().take(shorter) =~= events.take(shorter));
        lemma_planned_fails(schema, events.drop_last(), shorter);
    }
}

/// Plans the read that completes the partial updates of a batch.
///
/// The plan tracks identities as the normalizer does, without the flush of an
/// ordered statement. It therefore requests every identity that the normalizer
/// needs, and possibly some that it does not.
pub fn plan_partial_update_recovery(
    schema: &ReplicatedTableSchema,
    mutations: &Vec<&TableMutation>,
    max_recovered_bytes: usize,
) -> (r: Result<PartialUpdateRecoveryRequest, EtlError>)
    ensures
        match r {
            Ok(request) => {
                &&& request.wf()
                &&& planned(schema@, borrowed_views(mutations@)) is Ok
                &&& request@.keys == planned(schema@, borrowed_views(mutations@))->Ok_0.keys
                &&& index_views(request@.columns).to_set() == planned(
                    schema@,
                    borrowed_views(mutations@),
                )->Ok_0.columns
                &&& request@.max_recovered_bytes == max_recovered_bytes
            },
            Err(error) => planned(schema@, borrowed_views(mutations@)) == Err::<
                PlanView,
                ErrorView,
            >(error@),
        },
{
    let ghost events = borrowed_views(mutations@);
    let mut keys: Vec<PartialUpdateRecoveryKey> = Vec::new();
    let mut columns: Vec<usize> = Vec::new();
    let mut seen = StringHashSet::new();
    proof {
        assert(events.take(0) =~= Seq::empty());
        assert(recovery_key_views(keys@) =~= Seq::empty());
        assert(index_views(columns@).to_set() =~= Set::empty());
    }
    for index in 0..mutations.len()
        invariant
            events == borrowed_views(mutations@),
            planned(schema@, events.take(index as int)) == Ok::<PlanView, ErrorView>(
                PlanView {
                    keys: recovery_key_views(keys@),
                    columns: index_views(columns@).to_set(),
                    seen: seen@,
                },
            ),
    {
        let mutation = mutations[index];
        let ghost longer = events.take(index + 1);
        let ghost event = mutation@;
        proof {
            assert(longer.drop_last() =~= events.take(index as int));
            assert(longer.last() == event);
        }
        let identity = match mutation {
            TableMutation::Insert(_) => None,
            TableMutation::Delete(old_row) => Some(DeletePredicateRowRef::from_old(old_row)),
            TableMutation::Replace(row) => Some(DeletePredicateRowRef::Full(row)),
            TableMutation::Update { delete_row, .. } => Some(
                DeletePredicateRowRef::from_old(delete_row),
            ),
        };
        if let Some(image) = identity {
            assert(event_identity(schema@, event) == Some(image@));
            let predicate = match delete_predicate_from_row(schema, image) {
                Ok(predicate) => predicate,
                Err(error) => {
                    proof {
                        lemma_planned_fails(schema@, events, index + 1);
                    }
                    return Err(error);
                },
            };
            let is_new = !seen.contains(predicate.as_str());
            if is_new {
                if let TableMutation::Update { new_row: UpdatedTableRow::Partial(partial), .. } =
                    mutation {
                    assert(event_gaps(event) == index_views(partial.missing@));
                    if partial.missing.len() > 0 {
                        let components = match delete_key_components(schema, image) {
                            Ok(components) => components,
                            Err(error) => {
                                assert(false);
                                return Err(error);
                            },
                        };
                        let ghost held = columns@;
                        for k in 0..partial.missing.len()
                            invariant
                                columns@ == held + partial.missing@.take(k as int),
                        {
                            columns.push(partial.missing[k]);
                            assert(columns@ =~= held + partial.missing@.take(k + 1));
                        }
                        proof {
                            let added = index_views(partial.missing@);
                            assert(partial.missing@.take(partial.missing@.len() as int)
                                =~= partial.missing@);
                            assert(index_views(columns@) =~= index_views(held) + added);
                            lemma_concat_to_set(index_views(held), added);
                        }
                        let ghost held_keys = keys@;
                        let key = PartialUpdateRecoveryKey {
                            predicate: predicate.clone(),
                            components,
                            mutation_index: index,
                        };
                        keys.push(key);
                        assert(recovery_key_views(keys@) =~= recovery_key_views(held_keys).push(
                            key@,
                        ));
                    }
                }
                seen.insert(predicate);
            } else {
                assert(seen@.insert(predicate@) =~= seen@);
            }
        }
    }
    assert(events.take(events.len() as int) =~= events);
    let request = PartialUpdateRecoveryRequest::new(keys, columns, max_recovered_bytes);
    proof {
        let made = request@.columns;
        assert forall|x: int| index_views(made).to_set().contains(x) <==> index_views(
            columns@,
        ).to_set().contains(x) by {
            lemma_index_views_contains(made, x);
            lemma_index_views_contains(columns@, x);
            if 0 <= x <= usize::MAX {
                assert(made.to_set().contains(x as usize) == columns@.to_set().contains(
                    x as usize,
                ));
            }
        }
        assert(index_views(made).to_set() =~= index_views(columns@).to_set());
    }
    Ok(request)
}

proof fn lemma_index_views_contains(indexes: Seq<usize>, x: int)
    ensures
        index_views(indexes).contains(x) <==> 0 <= x <= usize::MAX && indexes.contains(x as usize),
{
    if index_views(indexes).contains(x) {
        let k = choose|k: int| 0 <= k < index_views(indexes).len() && index_views(indexes)[k] == x;
        assert(indexes[k] == x as usize);
    }
    if 0 <= x <= usize::MAX && indexes.contains(x as usize) {
        let k = choose|k: int| 0 <= k < indexes.len() && indexes[k] == x as usize;
        assert(index_views(indexes)[k] == x);
    }
}

proof fn lemma_concat_to_set(left: Seq<int>, right: Seq<int>)
    ensures
        (left + right).to_set() == left.to_set().union(right.to_set()),
{
    let whole = left + right;
    assert forall|x: int| whole.to_set().contains(x) <==> left.to_set().union(
        right.to_set(),
    ).contains(x) by {
        if whole.contains(x) {
            let k = choose|k: int| 0 <= k < whole.len() && whole[k] == x;
            if k < left.len() {
                assert(left[k] == x);
            } else {
                assert(right[k - left.len()] == x);
            }
        }
        if left.contains(x) {
            let k = choose|k: int| 0 <= k < left.len() && left[k] == x;
            assert(whole[k] == x);
        }
        if right.contains(x) {
            let k = choose|k: int| 0 <= k < right.len() && right[k] == x;
            assert(whole[left.len() + k] == x);
        }
    }
    assert(whole.to_set() =~= left.to_set().union(right.to_set()));
}

/// The bytes a batch may add by completing its partial updates: what its own
/// events leave of the byte cap, and at least one.
pub open spec fn byte_budget(config: DuckLakeStreamingBatchConfig, chunk: Seq<TrackedView>) -> nat {
    if config.max_bytes > tracked_size(chunk) {
        (config.max_bytes - tracked_size(chunk)) as nat
    } else {
        1
    }
}

/// Returns the bytes one batch may add by completing its partial updates.
pub fn recovery_byte_budget(
    config: DuckLakeStreamingBatchConfig,
    chunk: &Vec<TrackedTableMutation>,
) -> (r: usize)
    ensures
        r == byte_budget(config, tracked_views(chunk@)),
{
    let ghost views = tracked_views(chunk@);
    let mut total: usize = 0;
    assert(views.take(0) =~= Seq::empty());
    for i in 0..chunk.len()
        invariant
            views == tracked_views(chunk@),
            total == tracked_size(views.take(i as int)),
    {
        total = total.saturating_add(mutation_size_hint(chunk[i].mutation()));
        assert(views.take(i + 1).drop_last() =~= views.take(i as int));
        assert(views.take(i + 1).last() == chunk@[i as int]@);
    }
    assert(views.take(chunk@.len() as int) =~= views);
    let left: usize = config.max_bytes.saturating_sub(total);
    if left > 1 {
        left
    } else {
        1
    }
}

/// How many leading mutations of a chunk the first `covered` keys cover.
pub open spec fn covered_count(
    chunk_len: nat,
    keys: Seq<RecoveryKeyView>,
    covered: nat,
) -> int {
    if covered < keys.len() && keys[covered as int].mutation_index < chunk_len {
        keys[covered as int].mutation_index
    } else {
        chunk_len as int
    }
}

/// Returns how many leading mutations of a chunk one recovery covers.
///
/// Identities are requested in first-seen order and a read stops only at its
/// byte budget, so the batch keeps every event before the first uncovered
/// identity.
pub fn covered_mutation_count(
    chunk_len: usize,
    request: &PartialUpdateRecoveryRequest,
    covered_keys: usize,
) -> (r: usize)
    ensures
        r == covered_count(chunk_len as nat, request@.keys, covered_keys as nat),
{
    let keys = request.keys();
    assert(request@.keys.len() == keys@.len());
    if covered_keys < keys.len() {
        assert(request@.keys[covered_keys as int] == keys@[covered_keys as int]@);
        let index: usize = keys[covered_keys].mutation_index;
        if index < chunk_len {
            return index;
        }
    }
    chunk_len
}

/// Whether event `index` is the first one at the identity of `predicate`.
pub open spec fn first_at(
    schema: SchemaView,
    events: Seq<MutationView>,
    index: int,
    predicate: Seq<char>,
) -> bool {
    &&& 0 <= index < events.len()
    &&& touches(schema, events[index], predicate)
    &&& forall|j: int| 0 <= j < index ==> !touches(schema, #[trigger] events[j], predicate)
}

/// Whether an event removes or rewrites the identity of `predicate`.
pub open spec fn touches(schema: SchemaView, event: MutationView, predicate: Seq<char>) -> bool {
    match event_identity(schema, event) {
        None => false,
        Some(old_row) => row_predicate(schema, old_row) == Ok::<Seq<char>, ErrorView>(predicate),
    }
}

/// Each planned key is the first event at its identity and leaves columns out
/// that are planned; keys are in event order; and an identity is seen exactly
/// when some event touches it.
proof fn lemma_plan(schema: SchemaView, events: Seq<MutationView>)
    requires
        planned(schema, events) is Ok,
    ensures
        forall|p: Seq<char>|
            #[trigger] planned(schema, events)->Ok_0.seen.contains(p) <==> exists|j: int|
                0 <= j < events.len() && touches(schema, #[trigger] events[j], p),
        forall|k: int|
            0 <= k < planned(schema, events)->Ok_0.keys.len() ==> {
                let key = #[trigger] planned(schema, events)->Ok_0.keys[k];
                &&& first_at(schema, events, key.mutation_index, key.predicate)
                &&& event_gaps(events[key.mutation_index]).len() > 0
                &&& event_gaps(events[key.mutation_index]).to_set().subset_of(
                    planned(schema, events)->Ok_0.columns,
                )
            },
        forall|j: int, k: int|
            0 <= j < k < planned(schema, events)->Ok_0.keys.len()
                ==> #[trigger] planned(schema, events)->Ok_0.keys[j].mutation_index
                < #[trigger] planned(schema, events)->Ok_0.keys[k].mutation_index,
        forall|i: int, p: Seq<char>|
            #![trigger events[i], is_requested(planned(schema, events)->Ok_0.keys, p)]
            first_at(schema, events, i, p) && event_gaps(events[i]).len() > 0 ==> is_requested(
                planned(schema, events)->Ok_0.keys,
                p,
            ),
    decreases events.len(),
{
    if events.len() > 0 {
        let earlier = events.drop_last();
        let event = events.last();
        let last = events.len() - 1;
        lemma_plan(schema, earlier);
        let before = planned(schema, earlier)->Ok_0;
        let after = planned(schema, events)->Ok_0;
        assert(events[last] == event);
        assert(forall|j: int| 0 <= j < last ==> #[trigger] earlier[j] == events[j]);
        assert forall|p: Seq<char>| #[trigger] after.seen.contains(p) <==> exists|j: int|
            0 <= j < events.len() && touches(schema, #[trigger] events[j], p) by {
            if before.seen.contains(p) {
                let j = choose|j: int|
                    0 <= j < earlier.len() && touches(schema, #[trigger] earlier[j], p);
                assert(touches(schema, events[j], p));
            }
            if exists|j: int| 0 <= j < events.len() && touches(schema, #[trigger] events[j], p) {
                let j = choose|j: int|
                    0 <= j < events.len() && touches(schema, #[trigger] events[j], p);
                if j < last {
                    assert(touches(schema, earlier[j], p));
                }
            }
            if after.seen.contains(p) && !before.seen.contains(p) {
                assert(touches(schema, events[last], p));
            }
        }
        assert forall|k: int| 0 <= k < after.keys.len() implies {
            let key = #[trigger] after.keys[k];
            &&& first_at(schema, events, key.mutation_index, key.predicate)
            &&& event_gaps(events[key.mutation_index]).len() > 0
            &&& event_gaps(events[key.mutation_index]).to_set().subset_of(after.columns)
        } by {
            let key = after.keys[k];
            if k < before.keys.len() {
                assert(key == before.keys[k]);
                assert(first_at(schema, earlier, key.mutation_index, key.predicate));
                assert(earlier[key.mutation_index] == events[key.mutation_index]);
                assert forall|j: int| 0 <= j < key.mutation_index implies !touches(
                    schema,
                    #[trigger] events[j],
                    key.predicate,
                ) by {
                    assert(earlier[j] == events[j]);
                }
                assert(before.columns.subset_of(after.columns));
            } else {
                assert(!before.seen.contains(key.predicate));
                assert forall|j: int| 0 <= j < last implies !touches(
                    schema,
                    #[trigger] events[j],
                    key.predicate,
                ) by {
                    assert(earlier[j] == events[j]);
                }
            }
        }
        assert forall|j: int, k: int| 0 <= j < k < after.keys.len() implies #[trigger] after.keys[j].mutation_index
            < #[trigger] after.keys[k].mutation_index by {
            if k < before.keys.len() {
                assert(before.keys[j].mutation_index < before.keys[k].mutation_index);
            } else {
                assert(first_at(
                    schema,
                    earlier,
                    before.keys[j].mutation_index,
                    before.keys[j].predicate,
                ));
            }
        }
        assert forall|i: int, p: Seq<char>|
            #![trigger events[i], is_requested(after.keys, p)]
            first_at(schema, events, i, p) && event_gaps(events[i]).len() > 0 implies is_requested(
            after.keys,
            p,
        ) by {
            if i < last {
                assert(earlier[i] == events[i]);
                assert(first_at(schema, earlier, i, p));
                assert(is_requested(before.keys, p));
                let k = choose|k: int|
                    0 <= k < before.keys.len() && (#[trigger] before.keys[k]).predicate == p;
                assert(after.keys[k].predicate == p);
            } else {
                assert(!before.seen.contains(p)) by {
                    if before.seen.contains(p) {
                        let j = choose|j: int|
                            0 <= j < earlier.len() && touches(schema, #[trigger] earlier[j], p);
                        assert(touches(schema, events[j], p));
                    }
                }
                assert(after.keys.last().predicate == p);
                assert(after.keys[after.keys.len() - 1].predicate == p);
            }
        }
    }
}

/// A column is planned exactly when the event of some planned key leaves it out,
/// and the components of a planned key are those of that event's identity.
proof fn lemma_plan_columns(schema: SchemaView, events: Seq<MutationView>)
    requires
        planned(schema, events) is Ok,
    ensures
        forall|column: int| #[trigger]
            planned(schema, events)->Ok_0.columns.contains(column) ==> exists|k: int|
                0 <= k < planned(schema, events)->Ok_0.keys.len() && event_gaps(
                    events[(#[trigger] planned(schema, events)->Ok_0.keys[k]).mutation_index],
                ).contains(column),
        forall|k: int|
            0 <= k < planned(schema, events)->Ok_0.keys.len() ==> {
                let key = #[trigger] planned(schema, events)->Ok_0.keys[k];
                &&& event_identity(schema, events[key.mutation_index]) is Some
                &&& key.components == row_key(
                    schema,
                    event_identity(schema, events[key.mutation_index])->0,
                )->Ok_0
            },
    decreases events.len(),
{
    if events.len() > 0 {
        let earlier = events.drop_last();
        let event = events.last();
        let last = events.len() - 1;
        lemma_plan(schema, earlier);
        lemma_plan_columns(schema, earlier);
        let before = planned(schema, earlier)->Ok_0;
        let after = planned(schema, events)->Ok_0;
        assert(events[last] == event);
        assert forall|k: int| 0 <= k < before.keys.len() implies {
            &&& #[trigger] after.keys[k] == before.keys[k]
            &&& events[after.keys[k].mutation_index] == earlier[before.keys[k].mutation_index]
        } by {
            assert(first_at(
                schema,
                earlier,
                before.keys[k].mutation_index,
                before.keys[k].predicate,
            ));
        }
        assert forall|k: int| 0 <= k < after.keys.len() implies {
            let key = #[trigger] after.keys[k];
            &&& event_identity(schema, events[key.mutation_index]) is Some
            &&& key.components == row_key(
                schema,
                event_identity(schema, events[key.mutation_index])->0,
            )->Ok_0
        } by {
            if k < before.keys.len() {
                assert(after.keys[k] == before.keys[k]);
            }
        }
        assert forall|column: int| #[trigger] after.columns.contains(column) implies exists|k: int|
            0 <= k < after.keys.len() && event_gaps(
                events[(#[trigger] after.keys[k]).mutation_index],
            ).contains(column) by {
            if before.columns.contains(column) {
                let k = choose|k: int|
                    0 <= k < before.keys.len() && event_gaps(
                        earlier[(#[trigger] before.keys[k]).mutation_index],
                    ).contains(column);
                assert(after.keys[k] == before.keys[k]);
            } else {
                let newest = after.keys.len() - 1;
                assert(after.keys[newest].mutation_index == last);
                assert(event_gaps(event).contains(column));
            }
        }
    }
}

/// An identity is requested exactly when the first event at it leaves columns out.
/// Keys are requested in the order of those events, each identity once and with
/// its components, and the requested columns are exactly those that the events of
/// the keys leave out.
pub proof fn law_plan_requests_first_seen_identities(schema: SchemaView, events: Seq<MutationView>)
    requires
        planned(schema, events) is Ok,
    ensures
        forall|j: int, k: int|
            0 <= j < k < planned(schema, events)->Ok_0.keys.len()
                ==> #[trigger] planned(schema, events)->Ok_0.keys[j].mutation_index
                < #[trigger] planned(schema, events)->Ok_0.keys[k].mutation_index,
        forall|j: int, k: int|
            0 <= j < k < planned(schema, events)->Ok_0.keys.len()
                ==> #[trigger] planned(schema, events)->Ok_0.keys[j].predicate
                != #[trigger] planned(schema, events)->Ok_0.keys[k].predicate,
        forall|k: int|
            0 <= k < planned(schema, events)->Ok_0.keys.len() ==> {
                let key = #[trigger] planned(schema, events)->Ok_0.keys[k];
                &&& first_at(schema, events, key.mutation_index, key.predicate)
                &&& key.components == row_key(
                    schema,
                    event_identity(schema, events[key.mutation_index])->0,
                )->Ok_0
            },
        forall|p: Seq<char>| #[trigger]
            is_requested(planned(schema, events)->Ok_0.keys, p) <==> exists|i: int|
                first_at(schema, events, i, p) && event_gaps(#[trigger] events[i]).len() > 0,
        forall|column: int| #[trigger]
            planned(schema, events)->Ok_0.columns.contains(column) <==> exists|k: int|
                0 <= k < planned(schema, events)->Ok_0.keys.len() && event_gaps(
                    events[(#[trigger] planned(schema, events)->Ok_0.keys[k]).mutation_index],
                ).contains(column),
{
    lemma_plan(schema, events);
    lemma_plan_columns(schema, events);
    let keys = planned(schema, events)->Ok_0.keys;
    let columns = planned(schema, events)->Ok_0.columns;
    assert forall|p: Seq<char>| #[trigger] is_requested(keys, p) <==> exists|i: int|
        first_at(schema, events, i, p) && event_gaps(#[trigger] events[i]).len() > 0 by {
        if is_requested(keys, p) {
            let k = choose|k: int| 0 <= k < keys.len() && (#[trigger] keys[k]).predicate == p;
            assert(first_at(schema, events, keys[k].mutation_index, p));
            assert(event_gaps(events[keys[k].mutation_index]).len() > 0);
        }
    }
    assert forall|column: int|
        (exists|k: int|
            0 <= k < keys.len() && event_gaps(
                events[(#[trigger] keys[k]).mutation_index],
            ).contains(column)) implies #[trigger] columns.contains(column) by {
        let k = choose|k: int|
            0 <= k < keys.len() && event_gaps(
                events[(#[trigger] keys[k]).mutation_index],
            ).contains(column);
        let gaps = event_gaps(events[keys[k].mutation_index]);
        assert(gaps.to_set().contains(column));
        assert(gaps.to_set().subset_of(columns));
    }
    assert forall|j: int, k: int| 0 <= j < k < keys.len() implies #[trigger] keys[j].predicate
        != #[trigger] keys[k].predicate by {
        assert(first_at(schema, events, keys[j].mutation_index, keys[j].predicate));
        assert(first_at(schema, events, keys[k].mutation_index, keys[k].predicate));
        assert(touches(schema, events[keys[j].mutation_index], keys[j].predicate));
    }
}

/// The events a recovery covers need no identity that it did not cover, and it
/// covers at least one event when it covered at least one identity.
pub proof fn law_covered_events_need_covered_identities(
    schema: SchemaView,
    events: Seq<MutationView>,
    covered: nat,
)
    requires
        planned(schema, events) is Ok,
    ensures
        0 <= covered_count(events.len(), planned(schema, events)->Ok_0.keys, covered)
            <= events.len(),
        forall|i: int, k: int|
            #![trigger events[i], planned(schema, events)->Ok_0.keys[k]]
            0 <= i < covered_count(events.len(), planned(schema, events)->Ok_0.keys, covered)
                && covered <= k < planned(schema, events)->Ok_0.keys.len() ==> !touches(
                schema,
                events[i],
                planned(schema, events)->Ok_0.keys[k].predicate,
            ),
        covered >= 1 && events.len() > 0 ==> covered_count(
            events.len(),
            planned(schema, events)->Ok_0.keys,
            covered,
        ) >= 1,
{
    lemma_plan(schema, events);
    let keys = planned(schema, events)->Ok_0.keys;
    let count = covered_count(events.len(), keys, covered);
    if covered < keys.len() {
        assert(first_at(
            schema,
            events,
            keys[covered as int].mutation_index,
            keys[covered as int].predicate,
        ));
        if covered >= 1 {
            assert(keys[0].mutation_index < keys[covered as int].mutation_index);
            assert(first_at(schema, events, keys[0].mutation_index, keys[0].predicate));
        }
    }
    assert forall|i: int, k: int|
        #![trigger events[i], keys[k]]
        0 <= i < count && covered <= k < keys.len() implies !touches(
        schema,
        events[i],
        keys[k].predicate,
    ) by {
        assert(first_at(schema, events, keys[k].mutation_index, keys[k].predicate));
        if covered < k {
            assert(keys[covered as int].mutation_index < keys[k].mutation_index);
        }
    }
}

/// While no ordered statement was flushed, an identity that an event touched is
/// deleted in the run or was requested.
proof fn lemma_touched_is_deleted_or_requested(
    schema: SchemaView,
    events: Seq<MutationView>,
    recovered: RecoveredView,
    keys: Seq<RecoveryKeyView>,
    all: Seq<MutationView>,
)
    requires
        planned(schema, all) is Ok,
        keys == planned(schema, all)->Ok_0.keys,
        events.len() <= all.len(),
        events == all.take(events.len() as int),
        forall|p: Seq<char>| recovered.rows.dom().contains(p) <==> is_requested(keys, p),
        steps(schema, fresh_run(recovered), events) is Ok,
        steps(schema, fresh_run(recovered), events)->Ok_0.ops.len() == 0,
    ensures
        steps(schema, fresh_run(recovered), events)->Ok_0.recovered == recovered,
        forall|p: Seq<char>, j: int|
            #![trigger is_requested(keys, p), events[j]]
            0 <= j < events.len() && touches(schema, events[j], p) ==> is_requested(keys, p)
                || steps(schema, fresh_run(recovered), events)->Ok_0.deleted.contains(p),
    decreases events.len(),
{
    let start = fresh_run(recovered);
    if events.len() > 0 {
        let earlier = events.drop_last();
        let event = events.last();
        let last = events.len() - 1;
        assert(earlier =~= all.take(last));
        let run = steps(schema, start, earlier)->Ok_0;
        let next = steps(schema, start, events)->Ok_0;
        lemma_step_keeps(schema, run, event);
        lemma_touched_is_deleted_or_requested(schema, earlier, recovered, keys, all);
        assert forall|p: Seq<char>, j: int|
            #![trigger is_requested(keys, p), events[j]]
            0 <= j < events.len() && touches(schema, events[j], p) implies is_requested(keys, p)
            || next.deleted.contains(p) by {
            if j < last {
                assert(earlier[j] == events[j]);
                if !is_requested(keys, p) {
                    assert(run.deleted.contains(p));
                }
            } else if !is_requested(keys, p) && !next.deleted.contains(p) {
                assert(event == events[last]);
                assert(!recovered.rows.dom().contains(p));
                assert(false);
            }
        }
    }
}

/// One step keeps deleted identities and flushed statements; without a flush it
/// keeps what was read back, and deletes the identity it touches unless that
/// identity was requested.
proof fn lemma_step_keeps(schema: SchemaView, run: RunView, event: MutationView)
    requires
        step(schema, run, event) is Ok,
    ensures
        step(schema, run, event)->Ok_0.ops.len() >= run.ops.len(),
        step(schema, run, event)->Ok_0.ops.len() == 0 ==> {
            let next = step(schema, run, event)->Ok_0;
            &&& run.ops.len() == 0
            &&& next.recovered == run.recovered
            &&& forall|p: Seq<char>| run.deleted.contains(p) ==> #[trigger] next.deleted.contains(p)
            &&& forall|p: Seq<char>|
                touches(schema, event, p) && !run.recovered.rows.dom().contains(p)
                    ==> #[trigger] next.deleted.contains(p)
        },
{
    let next = step(schema, run, event)->Ok_0;
    match event_identity(schema, event) {
        None => {},
        Some(old_row) => {
            let predicate = row_predicate(schema, old_row)->Ok_0;
            let key = row_key(schema, old_row)->Ok_0;
            match event {
                MutationView::Update { new_row: UpdatedRowView::Partial(partial), .. } => {
                    lemma_partial_keeps(schema, run, predicate, key, partial);
                },
                _ => {
                    lemma_pushed_contains(run.deleted, predicate);
                },
            }
        },
    }
}

proof fn lemma_pushed_contains(items: Seq<Seq<char>>, item: Seq<char>)
    ensures
        items.push(item).contains(item),
        forall|p: Seq<char>| items.contains(p) ==> #[trigger] items.push(item).contains(p),
{
    assert(items.push(item)[items.len() as int] == item);
    assert forall|p: Seq<char>| items.contains(p) implies #[trigger] items.push(item).contains(p) by {
        let k = choose|k: int| 0 <= k < items.len() && items[k] == p;
        assert(items.push(item)[k] == p);
    }
}

proof fn lemma_inserts_keep(
    schema: SchemaView,
    run: RunView,
    rows: Seq<Seq<crate::data::CellView>>,
    count: nat,
)
    requires
        with_inserts(schema, run, rows, count) is Ok,
    ensures
        with_inserts(schema, run, rows, count)->Ok_0.ops == run.ops,
        with_inserts(schema, run, rows, count)->Ok_0.deleted == run.deleted,
        with_inserts(schema, run, rows, count)->Ok_0.recovered == run.recovered,
    decreases count,
{
    if count > 0 {
        lemma_inserts_keep(schema, run, rows, (count - 1) as nat);
    }
}

proof fn lemma_partial_keeps(
    schema: SchemaView,
    run: RunView,
    predicate: Seq<char>,
    key: Seq<crate::key_set::ComponentView>,
    partial: crate::data::PartialRowView,
)
    requires
        with_partial_update(schema, run, predicate, key, partial) is Ok,
    ensures
        with_partial_update(schema, run, predicate, key, partial)->Ok_0.ops.len() >= run.ops.len(),
        with_partial_update(schema, run, predicate, key, partial)->Ok_0.ops.len() == 0 ==> {
            let next = with_partial_update(schema, run, predicate, key, partial)->Ok_0;
            &&& run.ops.len() == 0
            &&& next.recovered == run.recovered
            &&& forall|p: Seq<char>| run.deleted.contains(p) ==> #[trigger] next.deleted.contains(p)
            &&& !run.recovered.rows.dom().contains(predicate) ==> next.deleted.contains(predicate)
        },
{
    let stored = run.recovered.rows;
    if run.deleted.contains(predicate) {
    } else if has_pending(schema, run.rows, predicate) && stored.dom().contains(predicate)
        && stored[predicate].len() == 0 {
    } else if stored.dom().contains(predicate) && stored[predicate].len() > 0 {
        let rows = crate::normalize::completed_rows(
            schema,
            partial,
            run.recovered,
            predicate,
        )->Ok_0;
        let middle = RunView {
            rows: crate::normalize::patch_pending(schema, run.rows, predicate, partial)->Ok_0,
            deleted: run.deleted.push(predicate),
            keys: run.keys.push(key),
            origin: Some(
                crate::normalize::merged_origin(run.origin, crate::mutation::DeleteOrigin::Update),
            ),
            ..run
        };
        lemma_inserts_keep(schema, middle, rows, rows.len());
        lemma_pushed_contains(run.deleted, predicate);
    }
}

/// The plan requests every identity the normalizer can use: as long as no
/// ordered statement was flushed, a partial update that leaves columns out, at
/// an identity the run has not deleted, finds its identity requested.
pub proof fn law_plan_covers_the_normalizer(
    schema: SchemaView,
    events: Seq<MutationView>,
    recovered: RecoveredView,
    index: int,
    predicate: Seq<char>,
)
    requires
        planned(schema, events) is Ok,
        forall|p: Seq<char>|
            recovered.rows.dom().contains(p) <==> is_requested(
                planned(schema, events)->Ok_0.keys,
                p,
            ),
        0 <= index < events.len(),
        steps(schema, fresh_run(recovered), events.take(index)) is Ok,
        steps(schema, fresh_run(recovered), events.take(index))->Ok_0.ops.len() == 0,
        touches(schema, events[index], predicate),
        event_gaps(events[index]).len() > 0,
        !steps(schema, fresh_run(recovered), events.take(index))->Ok_0.deleted.contains(predicate),
    ensures
        is_requested(planned(schema, events)->Ok_0.keys, predicate),
{
    let keys = planned(schema, events)->Ok_0.keys;
    let earlier = events.take(index);
    lemma_plan(schema, events);
    lemma_touched_is_deleted_or_requested(schema, earlier, recovered, keys, events);
    if !is_requested(keys, predicate) {
        assert forall|j: int| 0 <= j < index implies !touches(
            schema,
            #[trigger] events[j],
            predicate,
        ) by {
            assert(earlier[j] == events[j]);
        }
        assert(first_at(schema, events, index, predicate));
        assert(is_requested(keys, predicate));
    }
}

/// A recovery that read the first `covered` identities is enough for the events
/// it covers: whatever it holds for the other identities, those events do not
/// touch them.
pub proof fn law_covered_recovery_is_what_covered_events_need(
    schema: SchemaView,
    table: Seq<Seq<crate::data::CellView>>,
    events: Seq<MutationView>,
    recovered: RecoveredView,
    covered: nat,
)
    requires
        planned(schema, events) is Ok,
        recovered_from(
            schema,
            table,
            recovered,
            Set::new(
                |p: Seq<char>|
                    is_requested(
                        planned(schema, events)->Ok_0.keys.take(
                            if covered < planned(schema, events)->Ok_0.keys.len() {
                                covered as int
                            } else {
                                planned(schema, events)->Ok_0.keys.len() as int
                            },
                        ),
                        p,
                    ),
            ),
        ),
        forall|p: Seq<char>|
            recovered.rows.dom().contains(p) ==> is_requested(
                planned(schema, events)->Ok_0.keys,
                p,
            ),
    ensures
        recovered_from(
            schema,
            table,
            recovered,
            touched_identities(
                schema,
                events.take(
                    covered_count(events.len(), planned(schema, events)->Ok_0.keys, covered),
                ),
            ),
        ),
{
    let keys = planned(schema, events)->Ok_0.keys;
    let limit = if covered < keys.len() {
        covered as int
    } else {
        keys.len() as int
    };
    let count = covered_count(events.len(), keys, covered);
    let prefix = events.take(count);
    law_covered_events_need_covered_identities(schema, events, covered);
    let read = Set::new(|p: Seq<char>| is_requested(keys.take(limit), p));
    assert forall|p: Seq<char>|
        recovered.rows.dom().contains(p) && touched_identities(schema, prefix).contains(p) implies same_items(
        #[trigger] recovered.rows[p],
        rewritten(table, reading(schema, p, recovered.columns)),
    ) by {
        let k = choose|k: int| 0 <= k < keys.len() && (#[trigger] keys[k]).predicate == p;
        let i = choose|i: int| 0 <= i < prefix.len() && touches(schema, #[trigger] prefix[i], p);
        assert(prefix[i] == events[i]);
        assert(k < covered);
        assert(keys.take(limit)[k].predicate == p);
        assert(read.contains(p));
    }
}

/// The row image that a mutation finds its identity in: what it removes or rewrites.
pub open spec fn old_image(mutation: TableMutation) -> Option<OldTableRow> {
    match mutation {
        TableMutation::Delete(row) => Some(row),
        TableMutation::Update { delete_row, .. } => Some(delete_row),
        TableMutation::Replace(row) => Some(OldTableRow::Full(row)),
        TableMutation::Insert(_) => None,
    }
}

/// The columns that a mutation's new image leaves out.
pub open spec fn columns_left_out(mutation: TableMutation) -> Seq<usize> {
    match mutation {
        TableMutation::Update { new_row: UpdatedTableRow::Partial(partial), .. } =>
            partial.missing@,
        _ => Seq::empty(),
    }
}

/// A plan looks for the identity of a mutation in what it removes or rewrites, and
/// takes from a partial update the columns it leaves out; nothing else leaves any out.
pub proof fn law_plan_reads_mutations_as_they_are(schema: SchemaView, mutation: TableMutation)
    ensures
        event_identity(schema, mutation@) == (match old_image(mutation) {
            None => None,
            Some(row) => Some(row@),
        }),
        event_gaps(mutation@) == index_views(columns_left_out(mutation)),
{
    assert(index_views(Seq::<usize>::empty()) =~= Seq::<int>::empty());
}

/// There is a plan exactly when the identity of every mutation that has one can be
/// read, and a mutation without one needs none.
pub proof fn law_plan_fails_on_unreadable_identities(
    schema: SchemaView,
    mutations: Seq<TableMutation>,
)
    ensures
        planned(schema, mutation_views(mutations)) is Ok <==> forall|i: int|
            0 <= i < mutations.len() ==> (old_image(#[trigger] mutations[i]) matches Some(row)
                ==> row_predicate(schema, row@) is Ok),
    decreases mutations.len(),
{
    let events = mutation_views(mutations);
    if mutations.len() > 0 {
        let shorter = mutations.drop_last();
        let last = mutations.len() - 1;
        law_plan_fails_on_unreadable_identities(schema, shorter);
        law_plan_reads_mutations_as_they_are(schema, mutations[last]);
        assert(events.drop_last() =~= mutation_views(shorter));
        assert(events.last() == mutations[last]@);
        assert forall|i: int| 0 <= i < last implies #[trigger] mutations[i] == shorter[i] by {}
        if planned(schema, events.drop_last()) is Err {
            let i = choose|i: int|
                0 <= i < shorter.len() && !(old_image(#[trigger] shorter[i]) matches Some(row)
                    ==> row_predicate(schema, row@) is Ok);
            assert(mutations[i] == shorter[i]);
        }
    }
}

/// A batch input leaves to its recovery what its own row images leave of the byte cap,
/// and one byte where they leave none.
pub proof fn law_recovery_gets_what_is_left_of_the_cap(
    config: DuckLakeStreamingBatchConfig,
    chunk: Seq<TrackedTableMutation>,
)
    ensures
        carried_bytes(chunk) < config.max_bytes ==> byte_budget(config, tracked_views(chunk))
            + carried_bytes(chunk) == config.max_bytes,
        carried_bytes(chunk) >= config.max_bytes ==> byte_budget(config, tracked_views(chunk))
            == 1,
{
    law_tracked_size_counts_every_image(chunk);
}

/// A recovery covers the mutations in front of the first one that needs an identity it
/// did not cover, and all of them where there is none.
pub proof fn law_covered_mutations_end_at_the_next_key(
    chunk_len: nat,
    keys: Seq<RecoveryKeyView>,
    covered: nat,
)
    requires
        forall|k: int| 0 <= k < keys.len() ==> 0 <= (#[trigger] keys[k]).mutation_index,
    ensures
        0 <= covered_count(chunk_len, keys, covered) <= chunk_len,
        covered < keys.len() ==> covered_count(chunk_len, keys, covered)
            <= keys[covered as int].mutation_index,
        covered_count(chunk_len, keys, covered) < chunk_len ==> covered < keys.len()
            && covered_count(chunk_len, keys, covered) == keys[covered as int].mutation_index,
{
}

} // verus!
