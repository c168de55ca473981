//! Recovery of the columns that partial updates leave out.
//!
//! Postgres omits unchanged large columns from an `UPDATE` image, so a change
//! can arrive as a partial row. The missing values of a whole batch are read
//! back together, so that the batch normalizer can complete such rows in memory
//! and fold them into the same batched delete and insert as full rows.

use vstd::hash_map::StringHashMap;
use vstd::prelude::*;

use crate::data::{row_views, CellView, TableRow};
use crate::key_set::{component_views, ComponentView, KeyComponent};

verus! {

/// One identity whose stored rows complete a partial update.
pub struct PartialUpdateRecoveryKey {
    /// Identity predicate as the normalizer tracks it.
    pub predicate: String,
    /// Key components of the same identity.
    pub components: Vec<KeyComponent>,
    /// Index of the mutation that first needs the identity.
    pub mutation_index: usize,
}

/// Contents of a [`PartialUpdateRecoveryKey`].
pub struct RecoveryKeyView {
    pub predicate: Seq<char>,
    pub components: Seq<ComponentView>,
    pub mutation_index: int,
}

impl View for PartialUpdateRecoveryKey {
    type V = RecoveryKeyView;

    open spec fn view(&self) -> RecoveryKeyView {
        RecoveryKeyView {
            predicate: self.predicate@,
            components: component_views(self.components@),
            mutation_index: self.mutation_index as int,
        }
    }
}

/// Contents of a list of recovery keys.
pub open spec fn recovery_key_views(keys: Seq<PartialUpdateRecoveryKey>) -> Seq<RecoveryKeyView> {
    keys.map_values(|k: PartialUpdateRecoveryKey| k@)
}

/// Whether indexes are strictly ascending.
pub open spec fn strictly_ascending(indexes: Seq<usize>) -> bool {
    forall|j: int, k: int| 0 <= j < k < indexes.len() ==> #[trigger] indexes[j] < #[trigger] indexes[k]
}

/// Inserts `index` into strictly ascending indexes, unless it is there.
fn insert_ascending(indexes: &mut Vec<usize>, index: usize)
    requires
        strictly_ascending(old(indexes)@),
    ensures
        strictly_ascending(final(indexes)@),
        final(indexes)@.to_set() == old(indexes)@.to_set().insert(index),
{
    let ghost before = indexes@;
    let mut position: usize = 0;
    while position < indexes.len() && indexes[position] < index
        invariant
            indexes@ == before,
            strictly_ascending(before),
            position <= indexes@.len(),
            forall|k: int| 0 <= k < position ==> #[trigger] before[k] < index,
        decreases indexes@.len() - position,
    {
        position = position + 1;
    }
    if position < indexes.len() && indexes[position] == index {
        assert(before[position as int] == index);
        assert(before.contains(index));
        assert(before.to_set() =~= before.to_set().insert(index));
        return;
    }
    indexes.insert(position, index);
    proof {
        let after = indexes@;
        assert(after =~= before.take(position as int).push(index) + before.skip(position as int));
        assert forall|j: int, k: int| 0 <= j < k < after.len() implies #[trigger] after[j]
            < #[trigger] after[k] by {
            if k > position {
                assert(after[k] == before[k - 1]);
                if position < before.len() {
                    assert(index < before[position as int]);
                }
                if j < position {
                    assert(after[j] == before[j]);
                } else if j == position {
                    if k - 1 > position {
                        assert(before[position as int] < before[k - 1]);
                    }
                } else {
                    assert(after[j] == before[j - 1]);
                }
            } else if k == position {
                assert(after[j] == before[j]);
            } else {
                assert(after[j] == before[j] && after[k] == before[k]);
            }
        }
        assert forall|x: usize| after.to_set().contains(x) <==> before.to_set().insert(
            index,
        ).contains(x) by {
            if after.contains(x) {
                let k = choose|k: int| 0 <= k < after.len() && after[k] == x;
                if k < position {
                    assert(before[k] == x);
                } else if k > position {
                    assert(before[k - 1] == x);
                }
            }
            if before.contains(x) {
                let k = choose|k: int| 0 <= k < before.len() && before[k] == x;
                if k < position {
                    assert(after[k] == x);
                } else {
                    assert(after[k + 1] == x);
                }
            }
            assert(after[position as int] == index);
        }
        assert(after.to_set() =~= before.to_set().insert(index));
    }
}

/// The read that completes the partial updates of one batch.
pub struct PartialUpdateRecoveryRequest {
    keys: Vec<PartialUpdateRecoveryKey>,
    columns: Vec<usize>,
    max_recovered_bytes: usize,
}

/// Contents of a [`PartialUpdateRecoveryRequest`].
pub struct RequestView {
    pub keys: Seq<RecoveryKeyView>,
    pub columns: Seq<usize>,
    pub max_recovered_bytes: nat,
}

impl View for PartialUpdateRecoveryRequest {
    type V = RequestView;

    closed spec fn view(&self) -> RequestView {
        RequestView {
            keys: recovery_key_views(self.keys@),
            columns: self.columns@,
            max_recovered_bytes: self.max_recovered_bytes as nat,
        }
    }
}

impl PartialUpdateRecoveryRequest {
    /// The columns are strictly ascending.
    pub open spec fn wf(&self) -> bool {
        strictly_ascending(self@.columns)
    }

    /// Creates a request from identities and the columns they leave out, in any
    /// order.
    pub fn new(
        keys: Vec<PartialUpdateRecoveryKey>,
        columns: Vec<usize>,
        max_recovered_bytes: usize,
    ) -> (r: PartialUpdateRecoveryRequest)
        ensures
            r.wf(),
            r@.keys == recovery_key_views(keys@),
            r@.columns.to_set() == columns@.to_set(),
            r@.max_recovered_bytes == max_recovered_bytes,
    {
        let mut ascending: Vec<usize> = Vec::new();
        assert(columns@.take(0).to_set() =~= Set::<usize>::empty());
        assert(ascending@.to_set() =~= Set::<usize>::empty());
        for i in 0..columns.len()
            invariant
                strictly_ascending(ascending@),
                ascending@.to_set() == columns@.take(i as int).to_set(),
        {
            let ghost before = ascending@.to_set();
            insert_ascending(&mut ascending, columns[i]);
            proof {
                let shorter = columns@.take(i as int);
                let longer = columns@.take(i + 1);
                assert(longer =~= shorter.push(columns@[i as int]));
                assert forall|x: usize| longer.contains(x) <==> before.insert(
                    columns@[i as int],
                ).contains(x) by {
                    if longer.contains(x) {
                        let k = choose|k: int| 0 <= k < longer.len() && longer[k] == x;
                        if k < i {
                            assert(shorter[k] == x);
                        }
                    }
                    if shorter.contains(x) {
                        let k = choose|k: int| 0 <= k < shorter.len() && shorter[k] == x;
                        assert(longer[k] == x);
                    }
                    assert(longer[i as int] == columns@[i as int]);
                }
                assert(ascending@.to_set() =~= longer.to_set());
            }
        }
        assert(columns@.take(columns@.len() as int) =~= columns@);
        PartialUpdateRecoveryRequest { keys, columns: ascending, max_recovered_bytes }
    }

    /// Returns the identities to read, in first-seen order.
    pub fn keys(&self) -> (r: &Vec<PartialUpdateRecoveryKey>)
        ensures
            recovery_key_views(r@) == self@.keys,
    {
        &self.keys
    }

    /// Returns the replicated-column indexes to read, in ascending order.
    pub fn columns(&self) -> (r: &Vec<usize>)
        ensures
            r@ == self@.columns,
    {
        &self.columns
    }

    /// Returns the bytes after which the read stops.
    pub fn max_recovered_bytes(&self) -> (r: usize)
        ensures
            r == self@.max_recovered_bytes,
    {
        self.max_recovered_bytes
    }

    /// Returns whether the request would read nothing.
    pub fn is_empty(&self) -> (r: bool)
        ensures
            r == (self@.keys.len() == 0 || self@.columns.len() == 0),
    {
        self.keys.is_empty() || self.columns.is_empty()
    }
}

/// Stored rows read back for one recovery request.
///
/// A requested identity always has an entry, so an empty entry means the row is
/// absent from storage rather than unrequested.
pub struct RecoveredPartialRows {
    columns: Vec<usize>,
    rows: Vec<Vec<TableRow>>,
    slots: StringHashMap<usize>,
}

/// Contents of [`RecoveredPartialRows`]: the columns each stored row carries,
/// and the stored rows of each requested identity.
pub struct RecoveredView {
    pub columns: Seq<usize>,
    pub rows: Map<Seq<char>, Seq<Seq<CellView>>>,
}

/// A recovery that requested nothing.
pub open spec fn nothing_recovered() -> RecoveredView {
    RecoveredView { columns: Seq::empty(), rows: Map::empty() }
}

/// Whether `predicate` is one of the requested identities.
pub open spec fn is_requested(keys: Seq<RecoveryKeyView>, predicate: Seq<char>) -> bool {
    exists|k: int| 0 <= k < keys.len() && (#[trigger] keys[k]).predicate == predicate
}

/// An empty entry for each requested identity.
pub open spec fn empty_entries(keys: Seq<RecoveryKeyView>) -> Map<Seq<char>, Seq<Seq<CellView>>> {
    Map::new(|p: Seq<char>| is_requested(keys, p), |p: Seq<char>| Seq::empty())
}

/// The entries once one more row of an identity was read. Rows of identities
/// that were not requested are ignored.
pub open spec fn entries_with(
    entries: Map<Seq<char>, Seq<Seq<CellView>>>,
    predicate: Seq<char>,
    row: Seq<CellView>,
) -> Map<Seq<char>, Seq<Seq<CellView>>> {
    if entries.dom().contains(predicate) {
        entries.insert(predicate, entries[predicate].push(row))
    } else {
        entries
    }
}

impl View for RecoveredPartialRows {
    type V = RecoveredView;

    closed spec fn view(&self) -> RecoveredView {
        RecoveredView {
            columns: self.columns@,
            rows: Map::new(
                |p: Seq<char>| self.slots@.dom().contains(p),
                |p: Seq<char>| row_views(self.rows@[self.slots@[p] as int]@),
            ),
        }
    }
}

impl RecoveredPartialRows {
    /// Each identity has a slot of its own, and the columns are strictly
    /// ascending.
    pub closed spec fn wf(&self) -> bool {
        &&& strictly_ascending(self.columns@)
        &&& forall|p: Seq<char>|
            self.slots@.dom().contains(p) ==> (#[trigger] self.slots@[p]) < self.rows@.len()
        &&& forall|p: Seq<char>, q: Seq<char>|
            self.slots@.dom().contains(p) && self.slots@.dom().contains(q) && p != q ==> (
            #[trigger] self.slots@[p]) != (#[trigger] self.slots@[q])
    }

    /// Creates a result that carries no recovered identity.
    pub fn empty() -> (r: RecoveredPartialRows)
        ensures
            r.wf(),
            r@ == nothing_recovered(),
    {
        let r = RecoveredPartialRows {
            columns: Vec::new(),
            rows: Vec::new(),
            slots: StringHashMap::new(),
        };
        proof {
            assert(r@.rows =~= nothing_recovered().rows);
            assert(r@.columns =~= nothing_recovered().columns);
        }
        r
    }

    /// Creates a result with an empty entry for each requested identity.
    pub fn for_request(request: &PartialUpdateRecoveryRequest) -> (r: RecoveredPartialRows)
        requires
            request.wf(),
        ensures
            r.wf(),
            r@ == (RecoveredView {
                columns: request@.columns,
                rows: empty_entries(request@.keys),
            }),
    {
        let mut columns: Vec<usize> = Vec::new();
        for i in 0..request.columns.len()
            invariant
                columns@ == request.columns@.take(i as int),
        {
            columns.push(request.columns[i]);
            assert(columns@ =~= request.columns@.take(i + 1));
        }
        assert(request.columns@.take(request.columns@.len() as int) =~= request.columns@);
        let mut rows: Vec<Vec<TableRow>> = Vec::new();
        let mut slots: StringHashMap<usize> = StringHashMap::new();
        let ghost keys = request@.keys;
        for i in 0..request.keys.len()
            invariant
                keys == recovery_key_views(request.keys@),
                forall|p: Seq<char>| #[trigger]
                    slots@.dom().contains(p) <==> is_requested(keys.take(i as int), p),
                forall|p: Seq<char>|
                    slots@.dom().contains(p) ==> (#[trigger] slots@[p]) < rows@.len(),
                forall|p: Seq<char>, q: Seq<char>|
                    slots@.dom().contains(p) && slots@.dom().contains(q) && p != q ==> (
                    #[trigger] slots@[p]) != (#[trigger] slots@[q]),
                forall|k: int| 0 <= k < rows@.len() ==> (#[trigger] rows@[k])@.len() == 0,
        {
            let predicate = &request.keys[i].predicate;
            let ghost before = slots@;
            assert(keys[i as int].predicate == predicate@);
            if !slots.contains_key(predicate.as_str()) {
                slots.insert(predicate.clone(), rows.len());
                rows.push(Vec::new());
            }
            proof {
                let shorter = keys.take(i as int);
                let longer = keys.take(i + 1);
                assert forall|p: Seq<char>| #[trigger] slots@.dom().contains(p) <==> is_requested(
                    longer,
                    p,
                ) by {
                    if is_requested(shorter, p) {
                        let k = choose|k: int|
                            0 <= k < shorter.len() && (#[trigger] shorter[k]).predicate == p;
                        assert(longer[k].predicate == p);
                    }
                    if is_requested(longer, p) {
                        let k = choose|k: int|
                            0 <= k < longer.len() && (#[trigger] longer[k]).predicate == p;
                        if k < i {
                            assert(shorter[k].predicate == p);
                        }
                    }
                    assert(longer[i as int].predicate == predicate@);
                    assert(before.dom().contains(p) <==> is_requested(shorter, p));
                }
            }
        }
        assert(keys.take(request.keys@.len() as int) =~= keys);
        let r = RecoveredPartialRows { columns, rows, slots };
        proof {
            assert forall|p: Seq<char>| r@.rows.dom().contains(p) implies (#[trigger] r@.rows[p])
                == Seq::<Seq<CellView>>::empty() by {
                assert(r.rows@[r.slots@[p] as int]@.len() == 0);
                assert(row_views(r.rows@[r.slots@[p] as int]@) =~= Seq::empty());
            }
            assert(r@.rows =~= empty_entries(keys));
        }
        r
    }

    /// Returns the columns each stored row carries.
    pub fn columns(&self) -> (r: &Vec<usize>)
        requires
            self.wf(),
        ensures
            r@ == self@.columns,
            strictly_ascending(r@),
    {
        &self.columns
    }

    /// Returns the stored rows of one identity, or [`None`] when the identity
    /// was not requested.
    pub fn rows_for(&self, predicate: &str) -> (r: Option<&Vec<TableRow>>)
        requires
            self.wf(),
        ensures
            match r {
                Some(rows) => self@.rows.dom().contains(predicate@) && row_views(rows@)
                    == self@.rows[predicate@],
                None => !self@.rows.dom().contains(predicate@),
            },
    {
        match self.slots.get(predicate) {
            Some(slot) => {
                assert(self.slots@[predicate@] < self.rows@.len());
                Some(&self.rows[*slot])
            },
            None => None,
        }
    }

    /// Drops every recovered identity: a statement ordered ahead of the
    /// remaining events makes what was read stale.
    pub fn clear(&mut self)
        ensures
            final(self).wf(),
            final(self)@ == nothing_recovered(),
    {
        self.columns.clear();
        self.rows.clear();
        self.slots.clear();
        proof {
            assert(self@.rows =~= nothing_recovered().rows);
            assert(self@.columns =~= nothing_recovered().columns);
        }
    }

    /// Records one stored row of an identity, if it was requested.
    pub fn push(&mut self, predicate: &str, row: TableRow)
        requires
            old(self).wf(),
        ensures
            final(self).wf(),
            final(self)@ == (RecoveredView {
                columns: old(self)@.columns,
                rows: entries_with(old(self)@.rows, predicate@, row@),
            }),
    {
        let found = match self.slots.get(predicate) {
            Some(slot) => Some(*slot),
            None => None,
        };
        if let Some(slot) = found {
            let ghost before = self.rows@;
            assert(self.slots@[predicate@] == slot);
            self.rows[slot].push(row);
            proof {
                let after = self.rows@;
                assert(after.len() == before.len());
                assert(after[slot as int]@ == before[slot as int]@.push(row));
                assert(row_views(after[slot as int]@) =~= row_views(before[slot as int]@).push(
                    row@,
                ));
                assert forall|p: Seq<char>| self.slots@.dom().contains(p) && p != predicate@ implies (
                #[trigger] self@.rows[p]) == old(self)@.rows[p] by {
                    assert(self.slots@[p] != self.slots@[predicate@]);
                    assert(after[self.slots@[p] as int] == before[self.slots@[p] as int]);
                }
                assert(self@.rows =~= entries_with(old(self)@.rows, predicate@, row@));
            }
        }
    }
}

} // verus!
