//! Key sets of batched deletes and recovery reads.

use vstd::prelude::*;

use crate::data::{Cell, CellView, Scalar, ScalarView};
use crate::literal::cell_literal;
use crate::reading::{
    identifier, inside, items, law_cell_is_one_item, law_cell_literal_reads_back,
    law_cell_literal_stands_for_its_cell, law_joined_items_read_back, lemma_inside, meaning,
    one_item, reads_as, scalar_meaning, Meaning,
};
use crate::schema::{
    column_views, identity_indexes, identity_positions, lake_column,
    law_identity_indexes_are_the_identity_columns, law_lake_column_reads_back,
    lemma_identity_indexes, ColumnSchema, ReplicatedTableSchema, SchemaView,
};
use crate::text::{join_texts, joined, lowered, texts};

verus! {

/// Order-preserving numeric image of one canonical identity value.
///
/// The bounds emitted for a key set must bracket every key under the order of
/// the database. Integers order numerically, and UUIDs order as their unsigned
/// 128-bit images.
#[derive(Clone, Copy, Debug, PartialEq, Eq, Structural)]
pub enum KeyOrdinal {
    Integer(i64),
    Uuid(u128),
}

/// The image of a cell, for canonical integers and UUIDs.
pub open spec fn ordinal_of(cell: CellView) -> Option<KeyOrdinal> {
    match cell {
        CellView::Value(ScalarView::I16(value)) => Some(KeyOrdinal::Integer(value as i64)),
        CellView::Value(ScalarView::I32(value)) => Some(KeyOrdinal::Integer(value as i64)),
        CellView::Value(ScalarView::U32(value)) => Some(KeyOrdinal::Integer(value as i64)),
        CellView::Value(ScalarView::I64(value)) => Some(KeyOrdinal::Integer(value)),
        CellView::Value(ScalarView::Uuid(value)) => Some(KeyOrdinal::Uuid(value)),
        _ => None,
    }
}

/// Whether two images are of the same kind and `left` is at most `right`.
pub open spec fn ordinal_le(left: KeyOrdinal, right: KeyOrdinal) -> bool {
    match (left, right) {
        (KeyOrdinal::Integer(l), KeyOrdinal::Integer(r)) => l <= r,
        (KeyOrdinal::Uuid(l), KeyOrdinal::Uuid(r)) => l <= r,
        _ => false,
    }
}

/// Whether two images are of the same kind.
pub open spec fn same_kind(left: KeyOrdinal, right: KeyOrdinal) -> bool {
    (left is Integer) == (right is Integer)
}

impl KeyOrdinal {
    /// Returns the image of a canonical integer or UUID cell.
    pub fn from_cell(cell: &Cell) -> (r: Option<KeyOrdinal>)
        ensures
            r == ordinal_of(cell@),
    {
        match cell {
            Cell::Value(Scalar::I16(value)) => Some(KeyOrdinal::Integer(*value as i64)),
            Cell::Value(Scalar::I32(value)) => Some(KeyOrdinal::Integer(*value as i64)),
            Cell::Value(Scalar::U32(value)) => Some(KeyOrdinal::Integer(*value as i64)),
            Cell::Value(Scalar::I64(value)) => Some(KeyOrdinal::Integer(*value)),
            Cell::Value(Scalar::Uuid(value)) => Some(KeyOrdinal::Uuid(*value)),
            _ => None,
        }
    }

    /// Compares two images of the same kind.
    pub fn compare(self, other: KeyOrdinal) -> (r: Option<core::cmp::Ordering>)
        ensures
            r is Some <==> same_kind(self, other),
            r == Some(core::cmp::Ordering::Less) <==> ordinal_le(self, other) && self != other,
            r == Some(core::cmp::Ordering::Equal) <==> self == other,
            r == Some(core::cmp::Ordering::Greater) <==> ordinal_le(other, self) && self != other,
    {
        match (self, other) {
            (KeyOrdinal::Integer(left), KeyOrdinal::Integer(right)) => if left < right {
                Some(core::cmp::Ordering::Less)
            } else if left == right {
                Some(core::cmp::Ordering::Equal)
            } else {
                Some(core::cmp::Ordering::Greater)
            },
            (KeyOrdinal::Uuid(left), KeyOrdinal::Uuid(right)) => if left < right {
                Some(core::cmp::Ordering::Less)
            } else if left == right {
                Some(core::cmp::Ordering::Equal)
            } else {
                Some(core::cmp::Ordering::Greater)
            },
            _ => None,
        }
    }
}

/// One identity value of one key: the literal emitted into the key list, and
/// its sort image.
#[derive(Debug, PartialEq)]
pub struct KeyComponent {
    literal: String,
    ordinal: Option<KeyOrdinal>,
}

/// Contents of a [`KeyComponent`].
pub struct ComponentView {
    pub literal: Seq<char>,
    pub ordinal: Option<KeyOrdinal>,
}

impl View for KeyComponent {
    type V = ComponentView;

    closed spec fn view(&self) -> ComponentView {
        ComponentView { literal: self.literal@, ordinal: self.ordinal }
    }
}

/// The component of an identity cell.
pub open spec fn component_of(cell: CellView) -> ComponentView {
    ComponentView { literal: cell_literal(cell), ordinal: ordinal_of(cell) }
}

/// The components of identity cells.
pub open spec fn components_of(cells: Seq<CellView>) -> Seq<ComponentView> {
    cells.map_values(|c: CellView| component_of(c))
}

/// Contents of a list of components.
pub open spec fn component_views(components: Seq<KeyComponent>) -> Seq<ComponentView> {
    components.map_values(|c: KeyComponent| c@)
}

impl KeyComponent {
    /// Builds a component from an identity cell and its rendered literal.
    pub fn from_cell(cell: &Cell, literal: String) -> (r: KeyComponent)
        ensures
            r@ == (ComponentView { literal: literal@, ordinal: ordinal_of(cell@) }),
    {
        KeyComponent { literal, ordinal: KeyOrdinal::from_cell(cell) }
    }

    /// Returns the SQL literal of the component.
    pub fn literal(&self) -> (r: &str)
        ensures
            r@ == self@.literal,
    {
        self.literal.as_str()
    }
}

/// Running minimum and maximum of one identity column.
#[derive(Debug, PartialEq)]
pub enum ColumnBound {
    /// No key has contributed a value yet.
    Unset,
    /// Every key so far carried a comparable value. Each end is an image with the
    /// literal it came from.
    Range { min: (KeyOrdinal, String), max: (KeyOrdinal, String) },
    /// A `NULL` or incomparable value forbids a range predicate.
    Disabled,
}

/// Contents of a column's running bound.
pub enum BoundView {
    Unset,
    Range { min: (KeyOrdinal, Seq<char>), max: (KeyOrdinal, Seq<char>) },
    Disabled,
}

/// The bound once one more key contributed `component`.
pub open spec fn observed(bound: BoundView, component: ComponentView) -> BoundView {
    match (bound, component.ordinal) {
        (BoundView::Disabled, _) => BoundView::Disabled,
        (_, None) => BoundView::Disabled,
        (BoundView::Unset, Some(ordinal)) => BoundView::Range {
            min: (ordinal, component.literal),
            max: (ordinal, component.literal),
        },
        (BoundView::Range { min, max }, Some(ordinal)) => if !same_kind(ordinal, min.0)
            || !same_kind(ordinal, max.0) {
            BoundView::Disabled
        } else {
            BoundView::Range {
                min: if ordinal_le(min.0, ordinal) {
                    min
                } else {
                    (ordinal, component.literal)
                },
                max: if ordinal_le(ordinal, max.0) {
                    max
                } else {
                    (ordinal, component.literal)
                },
            }
        },
    }
}

/// The bounds of the `width` identity columns over the pushed keys. A key of
/// another width disables every bound.
pub open spec fn key_bounds(keys: Seq<Seq<ComponentView>>, width: nat) -> Seq<BoundView>
    decreases keys.len(),
{
    if keys.len() == 0 {
        Seq::new(width, |c: int| BoundView::Unset)
    } else if keys.last().len() != width {
        Seq::new(width, |c: int| BoundView::Disabled)
    } else {
        Seq::new(width, |c: int| observed(key_bounds(keys.drop_last(), width)[c], keys.last()[c]))
    }
}

impl View for ColumnBound {
    type V = BoundView;

    open spec fn view(&self) -> BoundView {
        match *self {
            ColumnBound::Unset => BoundView::Unset,
            ColumnBound::Range { min, max } => BoundView::Range {
                min: (min.0, min.1@),
                max: (max.0, max.1@),
            },
            ColumnBound::Disabled => BoundView::Disabled,
        }
    }
}

impl ColumnBound {
    /// Folds one key component into the bound.
    pub fn observe(&mut self, component: &KeyComponent)
        ensures
            final(self)@ == observed(old(self)@, component@),
    {
        let mut bound = ColumnBound::Disabled;
        core::mem::swap(&mut bound, self);
        let ordinal = match component.ordinal {
            Some(ordinal) => ordinal,
            None => return,
        };
        match bound {
            ColumnBound::Disabled => {},
            ColumnBound::Unset => {
                *self = ColumnBound::Range {
                    min: (ordinal, component.literal.clone()),
                    max: (ordinal, component.literal.clone()),
                };
            },
            ColumnBound::Range { min, max } => {
                if let (Some(against_min), Some(against_max)) = (
                    ordinal.compare(min.0),
                    ordinal.compare(max.0),
                ) {
                    let min = match against_min {
                        core::cmp::Ordering::Less => (ordinal, component.literal.clone()),
                        _ => min,
                    };
                    let max = match against_max {
                        core::cmp::Ordering::Greater => (ordinal, component.literal.clone()),
                        _ => max,
                    };
                    *self = ColumnBound::Range { min, max };
                }
            },
        }
    }
}

/// The literals of components.
pub open spec fn component_literals(components: Seq<ComponentView>) -> Seq<Seq<char>> {
    components.map_values(|c: ComponentView| c.literal)
}

/// The `VALUES` tuple of one key.
pub open spec fn key_tuple(components: Seq<ComponentView>) -> Seq<char> {
    "("@ + joined(component_literals(components), ","@) + ")"@
}

/// The `VALUES` tuples of keys.
pub open spec fn key_tuples(keys: Seq<Seq<ComponentView>>) -> Seq<Seq<char>> {
    keys.map_values(|k: Seq<ComponentView>| key_tuple(k))
}

/// The null-safe match between a target column and the key column.
pub open spec fn match_predicate(column: Seq<char>) -> Seq<char> {
    "cdc_target."@ + column + " IS NOT DISTINCT FROM cdc_keys."@ + column
}

/// The null-safe matches of every identity column.
pub open spec fn match_predicates(columns: Seq<Seq<char>>) -> Seq<Seq<char>> {
    columns.map_values(|c: Seq<char>| match_predicate(c))
}

/// The range predicates of one column: none unless its bound is a range.
pub open spec fn range_predicate(column: Seq<char>, bound: BoundView) -> Seq<Seq<char>> {
    match bound {
        BoundView::Range { min, max } => seq![
            "cdc_target."@ + column + " >= "@ + min.1,
            "cdc_target."@ + column + " <= "@ + max.1,
        ],
        _ => Seq::empty(),
    }
}

/// The range predicates of the first `count` columns.
pub open spec fn range_predicates(
    columns: Seq<Seq<char>>,
    bounds: Seq<BoundView>,
    count: nat,
) -> Seq<Seq<char>>
    decreases count,
{
    if count == 0 {
        Seq::empty()
    } else {
        range_predicates(columns, bounds, (count - 1) as nat) + range_predicate(
            columns[count - 1],
            bounds[count - 1],
        )
    }
}

/// Every predicate of a key set.
pub open spec fn key_predicates(
    columns: Seq<Seq<char>>,
    keys: Seq<Seq<ComponentView>>,
) -> Seq<Seq<char>> {
    match_predicates(columns) + range_predicates(
        columns,
        key_bounds(keys, columns.len()),
        columns.len(),
    )
}

/// The inline key relation of a key set.
pub open spec fn key_relation(columns: Seq<Seq<char>>, keys: Seq<Seq<ComponentView>>) -> Seq<char> {
    "(VALUES "@ + joined(key_tuples(keys), ","@) + ") AS cdc_keys("@ + joined(columns, ","@) + ")"@
}

/// The clause that matches target rows of a `DELETE` against the key set.
pub open spec fn using_clause(columns: Seq<Seq<char>>, keys: Seq<Seq<ComponentView>>) -> Seq<char> {
    "USING "@ + key_relation(columns, keys) + " WHERE "@ + joined(
        key_predicates(columns, keys),
        " AND "@,
    )
}

/// The clause that joins target rows of a `SELECT` with the key set.
pub open spec fn join_clause(columns: Seq<Seq<char>>, keys: Seq<Seq<ComponentView>>) -> Seq<char> {
    " JOIN "@ + key_relation(columns, keys) + " ON "@ + joined(
        key_predicates(columns, keys),
        " AND "@,
    )
}

/// The quoted lake names of a table's identity columns.
pub open spec fn identity_column_names(schema: SchemaView) -> Seq<Seq<char>> {
    identity_indexes(schema.columns).map_values(|i: int| lake_column(schema.columns[i]))
}

/// Accumulates the key set of one batched delete or read.
///
/// The key set joins the target table with an inline `VALUES` list, so one
/// statement covers every identity. The minimum and maximum of each identity
/// column are added as range predicates, so that data files outside them can
/// be skipped; they never change which rows match.
pub struct DeleteKeySet {
    identity_columns: Vec<String>,
    bounds: Vec<ColumnBound>,
    keys: Vec<String>,
    pushed: Ghost<Seq<Seq<ComponentView>>>,
}

spec fn bound_views(bounds: Seq<ColumnBound>) -> Seq<BoundView> {
    bounds.map_values(|b: ColumnBound| b@)
}

impl DeleteKeySet {
    /// The quoted identity column names.
    pub closed spec fn columns(&self) -> Seq<Seq<char>> {
        texts(self.identity_columns@)
    }

    /// The keys pushed since the key set was last taken.
    pub closed spec fn pushed(&self) -> Seq<Seq<ComponentView>> {
        self.pushed@
    }

    /// The rendered keys and bounds agree with the pushed keys.
    pub closed spec fn wf(&self) -> bool {
        &&& self.bounds@.len() == self.identity_columns@.len()
        &&& texts(self.keys@) == key_tuples(self.pushed@)
        &&& bound_views(self.bounds@) == key_bounds(self.pushed@, self.bounds@.len())
    }

    /// Creates an empty key set for a table's replica identity.
    pub fn new(schema: &ReplicatedTableSchema) -> (r: DeleteKeySet)
        ensures
            r.wf(),
            r.columns() == identity_column_names(schema@),
            r.pushed() == Seq::<Seq<ComponentView>>::empty(),
    {
        let indexes = schema.identity_column_indexes();
        let columns = schema.column_schemas();
        let ghost all = identity_indexes(schema@.columns);
        let mut identity_columns: Vec<String> = Vec::new();
        let mut bounds: Vec<ColumnBound> = Vec::new();
        proof {
            lemma_identity_indexes(schema@.columns);
            assert(all =~= indexes@.map_values(|i: usize| i as int));
        }
        for k in 0..indexes.len()
            invariant
                all == identity_indexes(schema@.columns),
                all.len() == indexes@.len(),
                crate::schema::column_views(columns@) == schema@.columns,
                forall|j: int| 0 <= j < all.len() ==> #[trigger] all[j] == indexes@[j],
                forall|j: int| 0 <= j < all.len() ==> 0 <= #[trigger] all[j] < columns@.len(),
                bounds@.len() == k,
                identity_columns@.len() == k,
                forall|j: int| 0 <= j < k ==> (#[trigger] bounds@[j])@ is Unset,
                forall|j: int|
                    0 <= j < k ==> (#[trigger] identity_columns@[j])@ == lake_column(
                        schema@.columns[all[j]],
                    ),
        {
            let index: usize = indexes[k];
            assert(all[k as int] == index);
            assert(schema@.columns[index as int] == columns@[index as int]@);
            identity_columns.push(columns[index].lake_name());
            bounds.push(ColumnBound::Unset);
        }
        proof {
            assert(texts(identity_columns@) =~= identity_column_names(schema@));
            assert(bound_views(bounds@) =~= key_bounds(Seq::empty(), bounds@.len()));
            assert(texts(Seq::<String>::empty()) =~= key_tuples(Seq::empty()));
        }
        DeleteKeySet { identity_columns, bounds, keys: Vec::new(), pushed: Ghost(Seq::empty()) }
    }

    /// Adds one identity to the key set and folds it into the bounds.
    ///
    /// A component count other than the replica identity's disables every
    /// bound.
    pub fn push(&mut self, components: &Vec<KeyComponent>)
        requires
            old(self).wf(),
        ensures
            final(self).wf(),
            final(self).columns() == old(self).columns(),
            final(self).pushed() == old(self).pushed().push(component_views(components@)),
    {
        let ghost views = component_views(components@);
        let ghost width = self.bounds@.len();
        let ghost before = self.pushed@;
        let ghost after = before.push(views);
        let mut literals: Vec<String> = Vec::new();
        for i in 0..components.len()
            invariant
                views == component_views(components@),
                literals@.len() == i,
                forall|j: int| 0 <= j < i ==> (#[trigger] literals@[j])@ == views[j].literal,
        {
            assert(views[i as int] == components@[i as int]@);
            literals.push(components[i].literal.clone());
        }
        assert(texts(literals@) =~= component_literals(views));
        let mut tuple = "(".to_owned();
        tuple.append(join_texts(&literals, ",").as_str());
        tuple.append(")");
        let ghost held = self.keys@;
        self.keys.push(tuple);
        proof {
            assert(texts(self.keys@) =~= texts(held).push(tuple@));
            assert(key_tuples(after) =~= key_tuples(before).push(key_tuple(views)));
            assert(after.drop_last() =~= before);
            assert(after.last() == views);
        }
        let matching = components.len() == self.bounds.len();
        let ghost previous = bound_views(self.bounds@);
        let ghost tuples = self.keys@;
        let count: usize = self.bounds.len();
        for i in 0..count
            invariant
                count == width,
                views == component_views(components@),
                matching == (views.len() == width),
                previous.len() == width,
                self.bounds@.len() == width,
                self.keys@ == tuples,
                self.identity_columns == old(self).identity_columns,
                forall|j: int|
                    0 <= j < i ==> (#[trigger] self.bounds@[j])@ == (if matching {
                        observed(previous[j], views[j])
                    } else {
                        BoundView::Disabled
                    }),
                forall|j: int| i <= j < width ==> (#[trigger] self.bounds@[j])@ == previous[j],
        {
            let mut bound = ColumnBound::Disabled;
            core::mem::swap(&mut bound, &mut self.bounds[i]);
            if matching {
                assert(views[i as int] == components@[i as int]@);
                bound.observe(&components[i]);
                self.bounds[i] = bound;
            }
        }
        proof {
            self.pushed@ = after;
            assert(bound_views(self.bounds@) =~= key_bounds(after, width));
        }
    }

    /// Renders and resets the key set: its key relation and its predicates.
    fn take_parts(&mut self) -> (r: (String, String))
        requires
            old(self).wf(),
        ensures
            final(self).wf(),
            final(self).columns() == old(self).columns(),
            final(self).pushed() == Seq::<Seq<ComponentView>>::empty(),
            r.0@ == key_relation(old(self).columns(), old(self).pushed()),
            r.1@ == joined(key_predicates(old(self).columns(), old(self).pushed()), " AND "@),
    {
        let ghost columns = self.columns();
        let ghost pushed = self.pushed@;
        let ghost width = self.bounds@.len();
        let mut predicates: Vec<String> = Vec::new();
        for i in 0..self.identity_columns.len()
            invariant
                columns == texts(self.identity_columns@),
                predicates@.len() == i,
                forall|j: int|
                    0 <= j < i ==> (#[trigger] predicates@[j])@ == match_predicate(columns[j]),
        {
            let column = self.identity_columns[i].as_str();
            assert(column@ == columns[i as int]);
            let mut predicate = "cdc_target.".to_owned();
            predicate.append(column);
            predicate.append(" IS NOT DISTINCT FROM cdc_keys.");
            predicate.append(column);
            predicates.push(predicate);
        }
        let ghost bounds = key_bounds(pushed, width);
        assert(texts(predicates@) =~= match_predicates(columns) + range_predicates(columns, bounds, 0));
        for i in 0..self.identity_columns.len()
            invariant
                columns == texts(self.identity_columns@),
                self.bounds@.len() == self.identity_columns@.len(),
                bounds == bound_views(self.bounds@),
                texts(predicates@) == match_predicates(columns) + range_predicates(
                    columns,
                    bounds,
                    i as nat,
                ),
        {
            let column = self.identity_columns[i].as_str();
            let ghost held = texts(predicates@);
            assert(column@ == columns[i as int]);
            assert(bounds[i as int] == self.bounds@[i as int]@);
            match &self.bounds[i] {
                ColumnBound::Range { min, max } => {
                    let mut lower = "cdc_target.".to_owned();
                    lower.append(column);
                    lower.append(" >= ");
                    lower.append(min.1.as_str());
                    let mut upper = "cdc_target.".to_owned();
                    upper.append(column);
                    upper.append(" <= ");
                    upper.append(max.1.as_str());
                    predicates.push(lower);
                    predicates.push(upper);
                    assert(texts(predicates@) =~= held + seq![lower@, upper@]);
                },
                _ => {},
            }
            assert(texts(predicates@) =~= match_predicates(columns) + range_predicates(
                columns,
                bounds,
                (i + 1) as nat,
            ));
        }
        let mut relation = "(VALUES ".to_owned();
        relation.append(join_texts(&self.keys, ",").as_str());
        relation.append(") AS cdc_keys(");
        relation.append(join_texts(&self.identity_columns, ",").as_str());
        relation.append(")");
        self.keys.clear();
        let count: usize = self.bounds.len();
        for i in 0..count
            invariant
                count == width,
                self.bounds@.len() == width,
                self.keys@.len() == 0,
                self.identity_columns == old(self).identity_columns,
                forall|j: int| 0 <= j < i ==> (#[trigger] self.bounds@[j])@ is Unset,
        {
            self.bounds[i] = ColumnBound::Unset;
        }
        proof {
            self.pushed@ = Seq::empty();
            assert(bound_views(self.bounds@) =~= key_bounds(Seq::empty(), width));
            assert(texts(self.keys@) =~= key_tuples(Seq::empty()));
        }
        (relation, join_texts(&predicates, " AND "))
    }

    /// Takes the key set as the matching clause of a `DELETE`.
    ///
    /// Returns [`None`] when no key was pushed. The key set is empty again
    /// afterwards.
    pub fn take_clause(&mut self) -> (r: Option<String>)
        requires
            old(self).wf(),
        ensures
            final(self).wf(),
            final(self).columns() == old(self).columns(),
            final(self).pushed() == Seq::<Seq<ComponentView>>::empty(),
            r is None <==> old(self).pushed().len() == 0,
            r matches Some(clause) ==> clause@ == using_clause(
                old(self).columns(),
                old(self).pushed(),
            ),
    {
        assert(texts(self.keys@).len() == self.pushed@.len());
        if self.keys.is_empty() {
            assert(self.pushed@ =~= Seq::empty());
            return None;
        }
        let (relation, predicates) = self.take_parts();
        let mut clause = "USING ".to_owned();
        clause.append(relation.as_str());
        clause.append(" WHERE ");
        clause.append(predicates.as_str());
        Some(clause)
    }

    /// Takes the key set as the join clause of a `SELECT`.
    ///
    /// Returns [`None`] when no key was pushed. The key set is empty again
    /// afterwards.
    pub fn take_join_clause(&mut self) -> (r: Option<String>)
        requires
            old(self).wf(),
        ensures
            final(self).wf(),
            final(self).columns() == old(self).columns(),
            final(self).pushed() == Seq::<Seq<ComponentView>>::empty(),
            r is None <==> old(self).pushed().len() == 0,
            r matches Some(clause) ==> clause@ == join_clause(
                old(self).columns(),
                old(self).pushed(),
            ),
    {
        assert(texts(self.keys@).len() == self.pushed@.len());
        if self.keys.is_empty() {
            assert(self.pushed@ =~= Seq::empty());
            return None;
        }
        let (relation, predicates) = self.take_parts();
        let mut clause = " JOIN ".to_owned();
        clause.append(relation.as_str());
        clause.append(" ON ");
        clause.append(predicates.as_str());
        Some(clause)
    }
}

/// The range of a column brackets every key: each key's value in that column is
/// comparable and lies between the minimum and the maximum, and both bounds are
/// the literals of keys in the set. A row that matches some key therefore
/// satisfies the range predicates.
pub proof fn law_bounds_bracket_every_key(
    keys: Seq<Seq<ComponentView>>,
    width: nat,
    column: int,
)
    requires
        0 <= column < width,
        key_bounds(keys, width)[column] is Range,
    ensures
        forall|k: int|
            0 <= k < keys.len() ==> (#[trigger] keys[k]).len() == width
                && keys[k][column].ordinal is Some && ordinal_le(
                key_bounds(keys, width)[column]->min.0,
                keys[k][column].ordinal->0,
            ) && ordinal_le(
                keys[k][column].ordinal->0,
                key_bounds(keys, width)[column]->max.0,
            ),
        exists|k: int|
            0 <= k < keys.len() && (#[trigger] keys[k])[column] == (ComponentView {
                literal: key_bounds(keys, width)[column]->min.1,
                ordinal: Some(key_bounds(keys, width)[column]->min.0),
            }),
        exists|k: int|
            0 <= k < keys.len() && (#[trigger] keys[k])[column] == (ComponentView {
                literal: key_bounds(keys, width)[column]->max.1,
                ordinal: Some(key_bounds(keys, width)[column]->max.0),
            }),
    decreases keys.len(),
{
    let shorter = keys.drop_last();
    let newest = keys.last();
    let before = key_bounds(shorter, width)[column];
    let after = key_bounds(keys, width)[column];
    assert(after == observed(before, newest[column]));
    let min_view = ComponentView { literal: after->min.1, ordinal: Some(after->min.0) };
    let max_view = ComponentView { literal: after->max.1, ordinal: Some(after->max.0) };
    if before is Unset {
        lemma_unset_only_when_empty(shorter, width, column);
        assert(keys[0] == newest);
        assert(keys[0][column] == min_view);
        assert(keys[0][column] == max_view);
    } else {
        law_bounds_bracket_every_key(shorter, width, column);
        let low = choose|k: int| 0 <= k < shorter.len() && (#[trigger] shorter[k])[column] == (ComponentView { literal: before->min.1, ordinal: Some(before->min.0) });
        let high = choose|k: int| 0 <= k < shorter.len() && (#[trigger] shorter[k])[column] == (ComponentView { literal: before->max.1, ordinal: Some(before->max.0) });
        let last = keys.len() - 1;
        assert(keys[low] == shorter[low]);
        assert(keys[high] == shorter[high]);
        assert(keys[last] == newest);
        assert(keys[low][column] == min_view || keys[last][column] == min_view);
        assert(keys[high][column] == max_view || keys[last][column] == max_view);
        assert forall|k: int| 0 <= k < keys.len() implies (#[trigger] keys[k]).len() == width
            && keys[k][column].ordinal is Some && ordinal_le(after->min.0, keys[k][column].ordinal->0)
            && ordinal_le(keys[k][column].ordinal->0, after->max.0) by {
            if k < last {
                assert(keys[k] == shorter[k]);
            }
        }
    }
}

proof fn lemma_unset_only_when_empty(keys: Seq<Seq<ComponentView>>, width: nat, column: int)
    requires
        0 <= column < width,
        key_bounds(keys, width)[column] is Unset,
    ensures
        keys.len() == 0,
{
    if keys.len() > 0 && keys.last().len() == width {
        assert(key_bounds(keys, width)[column] == observed(
            key_bounds(keys.drop_last(), width)[column],
            keys.last()[column],
        ));
    }
}

/// A key without a comparable value in one column drops the range of that
/// column.
pub proof fn law_incomparable_key_drops_its_column(
    keys: Seq<Seq<ComponentView>>,
    width: nat,
    column: int,
    key: int,
)
    requires
        0 <= column < width,
        0 <= key < keys.len(),
        keys[key].len() == width,
        keys[key][column].ordinal is None,
    ensures
        key_bounds(keys, width)[column] is Disabled,
    decreases keys.len(),
{
    if key < keys.len() - 1 && keys.last().len() == width {
        assert(keys.drop_last()[key] == keys[key]);
        law_incomparable_key_drops_its_column(keys.drop_last(), width, column, key);
    }
}

/// The range of a column depends on the values of that column alone: key sets
/// that agree there have the same bound, whatever their other columns hold.
pub proof fn law_columns_are_bounded_independently(
    left: Seq<Seq<ComponentView>>,
    right: Seq<Seq<ComponentView>>,
    width: nat,
    column: int,
)
    requires
        0 <= column < width,
        left.len() == right.len(),
        forall|k: int| 0 <= k < left.len() ==> (#[trigger] left[k]).len() == width,
        forall|k: int| 0 <= k < right.len() ==> (#[trigger] right[k]).len() == width,
        forall|k: int| 0 <= k < left.len() ==> (#[trigger] left[k])[column] == right[k][column],
    ensures
        key_bounds(left, width)[column] == key_bounds(right, width)[column],
    decreases left.len(),
{
    if left.len() > 0 {
        let last = left.len() - 1;
        assert(left[last][column] == right[last][column]);
        assert(left.last() == left[last] && right.last() == right[last]);
        assert forall|k: int| 0 <= k < left.drop_last().len() implies (#[trigger] left.drop_last()[k])[column]
            == right.drop_last()[k][column] by {
            assert(left.drop_last()[k] == left[k]);
            assert(right.drop_last()[k] == right[k]);
        }
        law_columns_are_bounded_independently(
            left.drop_last(),
            right.drop_last(),
            width,
            column,
        );
    }
}

/// The bound of a column once components were observed, in order.
pub open spec fn observed_all(components: Seq<ComponentView>) -> BoundView
    decreases components.len(),
{
    if components.len() == 0 {
        BoundView::Unset
    } else {
        observed(observed_all(components.drop_last()), components.last())
    }
}

/// Whether every component has an image and all images are of one kind.
pub open spec fn comparable(components: Seq<ComponentView>) -> bool {
    forall|i: int|
        0 <= i < components.len() ==> (#[trigger] components[i]).ordinal is Some && same_kind(
            components[i].ordinal->0,
            components[0].ordinal->0,
        )
}

/// Whether component `index` is the first one with an image.
pub open spec fn first_with(
    components: Seq<ComponentView>,
    ordinal: KeyOrdinal,
    index: int,
) -> bool {
    &&& 0 <= index < components.len()
    &&& components[index].ordinal == Some(ordinal)
    &&& forall|j: int| 0 <= j < index ==> (#[trigger] components[j]).ordinal != Some(ordinal)
}

/// Observing comparable components gives the range from their least image to their
/// greatest one, each with the literal of the first component that has it.
/// Observing any others disables the bound.
pub proof fn law_observed_bound_is_the_range(components: Seq<ComponentView>)
    requires
        components.len() > 0,
    ensures
        !comparable(components) ==> observed_all(components) is Disabled,
        comparable(components) ==> {
            &&& observed_all(components) is Range
            &&& forall|i: int|
                0 <= i < components.len() ==> ordinal_le(
                    observed_all(components)->min.0,
                    (#[trigger] components[i]).ordinal->0,
                ) && ordinal_le(components[i].ordinal->0, observed_all(components)->max.0)
            &&& exists|i: int|
                first_with(components, observed_all(components)->min.0, i) && (
                #[trigger] components[i]).literal == observed_all(components)->min.1
            &&& exists|i: int|
                first_with(components, observed_all(components)->max.0, i) && (
                #[trigger] components[i]).literal == observed_all(components)->max.1
        },
    decreases components.len(),
{
    let shorter = components.drop_last();
    let last = components.len() - 1;
    let newest = components[last];
    let before = observed_all(shorter);
    let after = observed_all(components);
    assert(components.last() == newest);
    if shorter.len() == 0 {
        assert(observed_all(shorter) is Unset);
        if newest.ordinal is Some {
            assert(first_with(components, newest.ordinal->0, 0));
        } else {
            assert(!comparable(components)) by {
                assert(components[0].ordinal is None);
            }
        }
    } else {
        law_observed_bound_is_the_range(shorter);
        assert forall|i: int| 0 <= i < last implies shorter[i] == #[trigger] components[i] by {}
        if comparable(components) {
            assert forall|i: int| 0 <= i < shorter.len() implies (
            #[trigger] shorter[i]).ordinal is Some && same_kind(
                shorter[i].ordinal->0,
                shorter[0].ordinal->0,
            ) by {
                assert(components[i].ordinal is Some);
            }
            assert(comparable(shorter));
            assert(components[last].ordinal is Some);
            let ordinal = newest.ordinal->0;
            let low = choose|i: int|
                first_with(shorter, before->min.0, i) && (#[trigger] shorter[i]).literal
                    == before->min.1;
            let high = choose|i: int|
                first_with(shorter, before->max.0, i) && (#[trigger] shorter[i]).literal
                    == before->max.1;
            assert(components[low] == shorter[low] && components[high] == shorter[high]);
            assert(same_kind(components[low].ordinal->0, components[0].ordinal->0));
            assert(same_kind(components[high].ordinal->0, components[0].ordinal->0));
            assert(same_kind(ordinal, components[0].ordinal->0));
            assert(after is Range);
            if ordinal_le(before->min.0, ordinal) {
                assert(first_with(components, after->min.0, low));
            } else {
                assert(first_with(components, after->min.0, last));
            }
            if ordinal_le(ordinal, before->max.0) {
                assert(first_with(components, after->max.0, high));
            } else {
                assert(first_with(components, after->max.0, last));
            }
            assert forall|i: int| 0 <= i < components.len() implies ordinal_le(
                after->min.0,
                (#[trigger] components[i]).ordinal->0,
            ) && ordinal_le(components[i].ordinal->0, after->max.0) by {
                if i < last {
                    assert(shorter[i] == components[i]);
                }
            }
        } else if comparable(shorter) {
            let low = choose|i: int|
                first_with(shorter, before->min.0, i) && (#[trigger] shorter[i]).literal
                    == before->min.1;
            if newest.ordinal is Some && same_kind(newest.ordinal->0, before->min.0) {
                assert(components[low] == shorter[low]);
                assert forall|i: int| 0 <= i < components.len() implies (
                #[trigger] components[i]).ordinal is Some && same_kind(
                    components[i].ordinal->0,
                    components[0].ordinal->0,
                ) by {
                    if i < last {
                        assert(shorter[i] == components[i]);
                    } else {
                        assert(shorter[low].ordinal == Some(before->min.0));
                    }
                }
                assert(false);
            }
        }
    }
}

/// A disabled bound stays disabled, whatever is observed later.
pub proof fn law_disabled_bound_stays_disabled(
    components: Seq<ComponentView>,
    later: Seq<ComponentView>,
)
    requires
        observed_all(components) is Disabled,
    ensures
        observed_all(components + later) is Disabled,
    decreases later.len(),
{
    if later.len() == 0 {
        assert(components + later =~= components);
    } else {
        law_disabled_bound_stays_disabled(components, later.drop_last());
        assert((components + later).drop_last() =~= components + later.drop_last());
    }
}

/// The bound of a column over keys of the right width is what observing their
/// values in that column gives.
pub proof fn law_key_bounds_observe_every_key(
    keys: Seq<Seq<ComponentView>>,
    width: nat,
    column: int,
)
    requires
        0 <= column < width,
        forall|k: int| 0 <= k < keys.len() ==> (#[trigger] keys[k]).len() == width,
    ensures
        key_bounds(keys, width)[column] == observed_all(
            keys.map_values(|key: Seq<ComponentView>| key[column]),
        ),
    decreases keys.len(),
{
    let values = keys.map_values(|key: Seq<ComponentView>| key[column]);
    if keys.len() > 0 {
        let shorter = keys.drop_last();
        assert forall|k: int| 0 <= k < shorter.len() implies (#[trigger] shorter[k]).len()
            == width by {
            assert(shorter[k] == keys[k]);
        }
        assert(keys[keys.len() - 1] == keys.last());
        law_key_bounds_observe_every_key(shorter, width, column);
        assert(values.drop_last() =~= shorter.map_values(|key: Seq<ComponentView>| key[column]));
        assert(values.last() == keys.last()[column]);
    }
}

/// The number that a database orders an identity value by: that of an integer of
/// any width, or of a UUID.
pub open spec fn sort_number(value: Meaning) -> Option<int> {
    match value {
        Meaning::Number(number) => Some(number),
        Meaning::Uuid(number) => Some(number as int),
        _ => None,
    }
}

/// What a cell with a single value is.
pub open spec fn cell_meaning(cell: Cell) -> Option<Meaning> {
    match cell {
        Cell::Null => Some(Meaning::Null),
        Cell::Value(scalar) => Some(scalar_meaning(scalar)),
        Cell::Array(_) => None,
    }
}

/// Whether a cell is an integer or a UUID.
pub open spec fn has_number(cell: Cell) -> bool {
    cell_meaning(cell) matches Some(value) && sort_number(value) is Some
}

/// Whether a value is an integer or a UUID and lies between two literals of the
/// same sort.
pub open spec fn lies_between(least: Seq<char>, value: Meaning, most: Seq<char>) -> bool {
    match (meaning(least), value, meaning(most)) {
        (
            Some(Meaning::Number(least)),
            Meaning::Number(value),
            Some(Meaning::Number(most)),
        ) => least <= value <= most,
        (Some(Meaning::Uuid(least)), Meaning::Uuid(value), Some(Meaning::Uuid(most))) => least
            <= value <= most,
        _ => false,
    }
}

/// Integers of every width, and UUIDs, have images and no other cell has one. The
/// images of two integers are ordered as their numbers are, whatever their widths,
/// and so are those of two UUIDs; an integer and a UUID have no order.
pub proof fn law_images_keep_the_order(left: Cell, right: Cell)
    ensures
        ordinal_of(left@) is Some <==> has_number(left),
        has_number(left) && has_number(right) ==> {
            let same_sort = (cell_meaning(left)->0 is Uuid) == (cell_meaning(right)->0 is Uuid);
            let left_number = sort_number(cell_meaning(left)->0)->0;
            let right_number = sort_number(cell_meaning(right)->0)->0;
            &&& same_kind(ordinal_of(left@)->0, ordinal_of(right@)->0) == same_sort
            &&& ordinal_le(ordinal_of(left@)->0, ordinal_of(right@)->0) == (same_sort
                && left_number <= right_number)
            &&& (ordinal_of(left@)->0 == ordinal_of(right@)->0) == (same_sort && left_number
                == right_number)
        },
{
}

/// Contents of key cells.
pub open spec fn key_cells(keys: Seq<Seq<Cell>>) -> Seq<Seq<ComponentView>> {
    keys.map_values(|key: Seq<Cell>| key.map_values(|cell: Cell| component_of(cell@)))
}

/// Whether the values of a column of keys are all integers, or all UUIDs.
pub open spec fn one_sort(keys: Seq<Seq<Cell>>, column: int) -> bool {
    ||| forall|k: int|
        0 <= k < keys.len() ==> cell_meaning((#[trigger] keys[k])[column]) matches Some(
            Meaning::Number(_),
        )
    ||| forall|k: int|
        0 <= k < keys.len() ==> cell_meaning((#[trigger] keys[k])[column]) matches Some(
            Meaning::Uuid(_),
        )
}

/// The range of a column by its values: a column of keys has a range exactly when
/// its values are all integers, or all UUIDs. The number of every key then lies
/// between the numbers that the two literals stand for, and both are numbers of
/// keys.
pub proof fn law_every_key_lies_between_the_bounds(
    keys: Seq<Seq<Cell>>,
    width: nat,
    column: int,
)
    requires
        0 <= column < width,
        keys.len() > 0,
        forall|k: int| 0 <= k < keys.len() ==> (#[trigger] keys[k]).len() == width,
    ensures
        key_bounds(key_cells(keys), width)[column] is Range <==> one_sort(keys, column),
        key_bounds(key_cells(keys), width)[column] matches BoundView::Range { min, max } ==> {
            &&& forall|k: int|
                0 <= k < keys.len() ==> lies_between(
                    min.1,
                    cell_meaning((#[trigger] keys[k])[column])->0,
                    max.1,
                )
            &&& exists|k: int|
                0 <= k < keys.len() && meaning(min.1) == cell_meaning((#[trigger] keys[k])[column])
            &&& exists|k: int|
                0 <= k < keys.len() && meaning(max.1) == cell_meaning((#[trigger] keys[k])[column])
        },
{
    let views = key_cells(keys);
    assert forall|k: int| 0 <= k < keys.len() implies (#[trigger] views[k]).len() == width
        && views[k][column] == component_of(keys[k][column]@) by {
        assert(keys[k].len() == width);
    }
    lemma_range_iff_one_sort(keys, width, column);
    if key_bounds(views, width)[column] is Range {
        let bound = key_bounds(views, width)[column];
        law_bounds_bracket_every_key(views, width, column);
        let low = choose|k: int|
            0 <= k < views.len() && (#[trigger] views[k])[column] == (ComponentView {
                literal: bound->min.1,
                ordinal: Some(bound->min.0),
            });
        let high = choose|k: int|
            0 <= k < views.len() && (#[trigger] views[k])[column] == (ComponentView {
                literal: bound->max.1,
                ordinal: Some(bound->max.0),
            });
        let least = keys[low][column];
        let most = keys[high][column];
        law_cell_literal_reads_back(least);
        law_cell_literal_reads_back(most);
        law_images_keep_the_order(least, most);
        law_images_keep_the_order(most, least);
        assert(views[low][column] == component_of(least@));
        assert(views[high][column] == component_of(most@));
        assert(meaning(bound->min.1) == cell_meaning(keys[low][column]));
        assert(meaning(bound->max.1) == cell_meaning(keys[high][column]));
        assert forall|k: int| 0 <= k < keys.len() implies lies_between(
            bound->min.1,
            cell_meaning((#[trigger] keys[k])[column])->0,
            bound->max.1,
        ) by {
            let cell = keys[k][column];
            assert(views[k][column] == component_of(cell@));
            law_images_keep_the_order(least, cell);
            law_images_keep_the_order(cell, most);
        }
    }
}

proof fn lemma_range_iff_one_sort(keys: Seq<Seq<Cell>>, width: nat, column: int)
    requires
        0 <= column < width,
        keys.len() > 0,
        forall|k: int| 0 <= k < keys.len() ==> (#[trigger] keys[k]).len() == width,
    ensures
        key_bounds(key_cells(keys), width)[column] matches BoundView::Range { min, max }
            ==> same_kind(min.0, max.0),
        key_bounds(key_cells(keys), width)[column] is Range || key_bounds(
            key_cells(keys),
            width,
        )[column] is Disabled,
        key_bounds(key_cells(keys), width)[column] matches BoundView::Range { min, .. } && min.0
            is Integer <==> forall|k: int|
            0 <= k < keys.len() ==> cell_meaning((#[trigger] keys[k])[column]) matches Some(
                Meaning::Number(_),
            ),
        key_bounds(key_cells(keys), width)[column] matches BoundView::Range { min, .. } && min.0
            is Uuid <==> forall|k: int|
            0 <= k < keys.len() ==> cell_meaning((#[trigger] keys[k])[column]) matches Some(
                Meaning::Uuid(_),
            ),
    decreases keys.len(),
{
    let views = key_cells(keys);
    let last = keys.len() - 1;
    let newest = keys[last][column];
    assert(views.last() == views[last]);
    assert(views.last()[column] == component_of(newest@));
    assert(views.drop_last() =~= key_cells(keys.drop_last()));
    let after = key_bounds(views, width)[column];
    let before = key_bounds(views.drop_last(), width)[column];
    assert(after == observed(before, component_of(newest@)));
    law_images_keep_the_order(newest, newest);
    let numbers = forall|k: int|
        0 <= k < keys.len() ==> cell_meaning((#[trigger] keys[k])[column]) matches Some(
            Meaning::Number(_),
        );
    let uuids = forall|k: int|
        0 <= k < keys.len() ==> cell_meaning((#[trigger] keys[k])[column]) matches Some(
            Meaning::Uuid(_),
        );
    if keys.len() == 1 {
        assert(before is Unset);
        assert(numbers == (cell_meaning(newest) matches Some(Meaning::Number(_)))) by {
            assert(keys[0][column] == newest);
        }
        assert(uuids == (cell_meaning(newest) matches Some(Meaning::Uuid(_)))) by {
            assert(keys[0][column] == newest);
        }
    } else {
        let shorter = keys.drop_last();
        assert forall|k: int| 0 <= k < shorter.len() implies (#[trigger] shorter[k]).len()
            == width by {
            assert(shorter[k] == keys[k]);
        }
        lemma_range_iff_one_sort(shorter, width, column);
        let fewer_numbers = forall|k: int|
            0 <= k < shorter.len() ==> cell_meaning((#[trigger] shorter[k])[column]) matches Some(
                Meaning::Number(_),
            );
        let fewer_uuids = forall|k: int|
            0 <= k < shorter.len() ==> cell_meaning((#[trigger] shorter[k])[column]) matches Some(
                Meaning::Uuid(_),
            );
        assert(numbers == (fewer_numbers && (cell_meaning(newest) matches Some(
            Meaning::Number(_),
        )))) by {
            assert(keys[last][column] == newest);
            assert(forall|k: int| 0 <= k < shorter.len() ==> (#[trigger] shorter[k]) == keys[k]);
            assert(forall|k: int| 0 <= k < shorter.len() ==> (#[trigger] keys[k]) == shorter[k]);
        }
        assert(uuids == (fewer_uuids && (cell_meaning(newest) matches Some(Meaning::Uuid(_)))))
            by {
            assert(keys[last][column] == newest);
            assert(forall|k: int| 0 <= k < shorter.len() ==> (#[trigger] shorter[k]) == keys[k]);
            assert(forall|k: int| 0 <= k < shorter.len() ==> (#[trigger] keys[k]) == shorter[k]);
        }
    }
}

/// The `VALUES` tuple of a key reads back as the values of the key, one for each
/// identity column and in column order.
pub proof fn law_key_tuple_reads_back(key: Seq<Cell>)
    ensures
        ({
            let body = inside(
                key_tuple(key.map_values(|cell: Cell| component_of(cell@))),
                "("@,
                ")"@,
            );
            &&& body is Some
            &&& items(body->0).len() == key.len()
            &&& forall|c: int|
                0 <= c < key.len() ==> reads_as(#[trigger] items(body->0)[c], key[c])
        }),
{
    let views = key.map_values(|cell: Cell| component_of(cell@));
    let parts = component_literals(views);
    lemma_inside("("@, joined(parts, ","@), ")"@);
    assert forall|c: int| 0 <= c < parts.len() implies one_item(#[trigger] parts[c]) && parts[c]
        == cell_literal(key[c]@) by {
        law_cell_is_one_item(key[c]);
    }
    law_joined_items_read_back(parts, ","@);
    assert forall|c: int| 0 <= c < key.len() implies reads_as(
        #[trigger] items(joined(parts, ","@))[c],
        key[c],
    ) by {
        law_cell_literal_stands_for_its_cell(key[c]);
    }
}

/// Whether a predicate bounds a column from below by a literal.
pub open spec fn bounds_below(
    predicate: Seq<char>,
    column: Seq<char>,
    literal: Seq<char>,
) -> bool {
    predicate == "cdc_target."@ + column + " >= "@ + literal
}

/// Whether a predicate bounds a column from above by a literal.
pub open spec fn bounds_above(
    predicate: Seq<char>,
    column: Seq<char>,
    literal: Seq<char>,
) -> bool {
    predicate == "cdc_target."@ + column + " <= "@ + literal
}

/// Whether a predicate bounds a column by a literal that no key is beyond.
pub open spec fn admits_every_key(
    predicate: Seq<char>,
    name: Seq<char>,
    literal: Seq<char>,
    keys: Seq<Seq<Cell>>,
    column: int,
) -> bool {
    ||| bounds_below(predicate, name, literal) && forall|k: int|
        0 <= k < keys.len() ==> lies_between(
            literal,
            cell_meaning((#[trigger] keys[k])[column])->0,
            cell_literal(keys[k][column]@),
        )
    ||| bounds_above(predicate, name, literal) && forall|k: int|
        0 <= k < keys.len() ==> lies_between(
            cell_literal((#[trigger] keys[k])[column]@),
            cell_meaning(keys[k][column])->0,
            literal,
        )
}

/// Whether a predicate bounds some column by a literal that no key is beyond.
pub open spec fn only_bounds(
    predicate: Seq<char>,
    columns: Seq<Seq<char>>,
    keys: Seq<Seq<Cell>>,
) -> bool {
    exists|column: int, literal: Seq<char>|
        0 <= column < columns.len() && #[trigger] admits_every_key(
            predicate,
            columns[column],
            literal,
            keys,
            column,
        )
}

proof fn lemma_range_predicates(
    columns: Seq<Seq<char>>,
    bounds: Seq<BoundView>,
    count: nat,
    index: int,
) -> (column: int)
    requires
        count <= columns.len(),
        columns.len() == bounds.len(),
        0 <= index < range_predicates(columns, bounds, count).len(),
    ensures
        0 <= column < count,
        bounds[column] matches BoundView::Range { min, max } && (bounds_below(
            range_predicates(columns, bounds, count)[index],
            columns[column],
            min.1,
        ) || bounds_above(
            range_predicates(columns, bounds, count)[index],
            columns[column],
            max.1,
        )),
    decreases count,
{
    let before = range_predicates(columns, bounds, (count - 1) as nat);
    if index < before.len() {
        lemma_range_predicates(columns, bounds, (count - 1) as nat, index)
    } else {
        count - 1
    }
}

proof fn lemma_bounded_columns(
    columns: Seq<Seq<char>>,
    bounds: Seq<BoundView>,
    count: nat,
    column: int,
)
    requires
        count <= columns.len(),
        columns.len() == bounds.len(),
        0 <= column < count,
        bounds[column] is Range,
    ensures
        range_predicates(columns, bounds, count).contains(
            "cdc_target."@ + columns[column] + " >= "@ + bounds[column]->min.1,
        ),
        range_predicates(columns, bounds, count).contains(
            "cdc_target."@ + columns[column] + " <= "@ + bounds[column]->max.1,
        ),
    decreases count,
{
    let before = range_predicates(columns, bounds, (count - 1) as nat);
    let newest = range_predicate(columns[count - 1], bounds[count - 1]);
    let all = range_predicates(columns, bounds, count);
    assert(all == before + newest);
    let below = "cdc_target."@ + columns[column] + " >= "@ + bounds[column]->min.1;
    let above = "cdc_target."@ + columns[column] + " <= "@ + bounds[column]->max.1;
    if column < count - 1 {
        lemma_bounded_columns(columns, bounds, (count - 1) as nat, column);
        let i = choose|i: int| 0 <= i < before.len() && before[i] == below;
        let j = choose|j: int| 0 <= j < before.len() && before[j] == above;
        assert(all[i] == below);
        assert(all[j] == above);
    } else {
        assert(all[before.len() as int] == below);
        assert(all[before.len() as int + 1] == above);
    }
}

/// The predicates of a key set match what the keys match: the first ones ask, for
/// every identity column, that the target holds what the key holds, absent values
/// included. Every further one bounds a column by a literal that no key is beyond,
/// so it changes nothing of which rows match. A column whose keys are all integers,
/// or all UUIDs, is bounded on both sides.
pub proof fn law_predicates_match_what_the_keys_match(
    columns: Seq<Seq<char>>,
    keys: Seq<Seq<Cell>>,
)
    requires
        keys.len() > 0,
        forall|k: int| 0 <= k < keys.len() ==> (#[trigger] keys[k]).len() == columns.len(),
    ensures
        key_predicates(columns, key_cells(keys)).len() >= columns.len(),
        forall|c: int|
            0 <= c < columns.len() ==> #[trigger] key_predicates(columns, key_cells(keys))[c]
                == "cdc_target."@ + columns[c] + " IS NOT DISTINCT FROM "@ + "cdc_keys."@
                + columns[c],
        forall|p: int|
            columns.len() <= p < key_predicates(columns, key_cells(keys)).len() ==> only_bounds(
                #[trigger] key_predicates(columns, key_cells(keys))[p],
                columns,
                keys,
            ),
        forall|c: int|
            #![trigger columns[c]]
            0 <= c < columns.len() && one_sort(keys, c) ==> exists|least: Seq<char>, most: Seq<char>|
                #![trigger meaning(least), meaning(most)]
                {
                    &&& key_predicates(columns, key_cells(keys)).contains(
                        "cdc_target."@ + columns[c] + " >= "@ + least,
                    )
                    &&& key_predicates(columns, key_cells(keys)).contains(
                        "cdc_target."@ + columns[c] + " <= "@ + most,
                    )
                    &&& forall|k: int|
                        0 <= k < keys.len() ==> lies_between(
                            least,
                            cell_meaning((#[trigger] keys[k])[c])->0,
                            most,
                        )
                },
{
    let views = key_cells(keys);
    let width = columns.len();
    let bounds = key_bounds(views, width);
    let all = key_predicates(columns, views);
    let ranges = range_predicates(columns, bounds, width);
    assert(all == match_predicates(columns) + ranges);
    reveal_strlit(" IS NOT DISTINCT FROM cdc_keys.");
    reveal_strlit(" IS NOT DISTINCT FROM ");
    reveal_strlit("cdc_keys.");
    assert(" IS NOT DISTINCT FROM cdc_keys."@ =~= " IS NOT DISTINCT FROM "@ + "cdc_keys."@);
    assert forall|c: int| 0 <= c < width implies #[trigger] all[c] == "cdc_target."@ + columns[c]
        + " IS NOT DISTINCT FROM "@ + "cdc_keys."@ + columns[c] by {
        assert(all[c] == match_predicate(columns[c]));
        assert(match_predicate(columns[c]) =~= "cdc_target."@ + columns[c]
            + " IS NOT DISTINCT FROM "@ + "cdc_keys."@ + columns[c]);
    }
    assert forall|p: int| width <= p < all.len() implies only_bounds(
        #[trigger] all[p],
        columns,
        keys,
    ) by {
        let column = lemma_range_predicates(columns, bounds, width, p - width);
        let bound = bounds[column];
        law_every_key_lies_between_the_bounds(keys, width, column);
        assert(all[p] == ranges[p - width]);
        assert forall|k: int| 0 <= k < keys.len() implies lies_between(
            bound->min.1,
            cell_meaning((#[trigger] keys[k])[column])->0,
            cell_literal(keys[k][column]@),
        ) && lies_between(
            cell_literal(keys[k][column]@),
            cell_meaning(keys[k][column])->0,
            bound->max.1,
        ) by {
            law_cell_literal_reads_back(keys[k][column]);
        }
        if bounds_below(all[p], columns[column], bound->min.1) {
            assert(admits_every_key(all[p], columns[column], bound->min.1, keys, column));
        } else {
            assert(admits_every_key(all[p], columns[column], bound->max.1, keys, column));
        }
    }
    assert forall|c: int|
        #![trigger columns[c]]
        0 <= c < width && one_sort(keys, c) implies exists|least: Seq<char>, most: Seq<char>|
        #![trigger meaning(least), meaning(most)]
        {
            &&& all.contains("cdc_target."@ + columns[c] + " >= "@ + least)
            &&& all.contains("cdc_target."@ + columns[c] + " <= "@ + most)
            &&& forall|k: int|
                0 <= k < keys.len() ==> lies_between(
                    least,
                    cell_meaning((#[trigger] keys[k])[c])->0,
                    most,
                )
        } by {
        let least = bounds[c]->min.1;
        let most = bounds[c]->max.1;
        law_every_key_lies_between_the_bounds(keys, width, c);
        lemma_bounded_columns(columns, bounds, width, c);
        let below = "cdc_target."@ + columns[c] + " >= "@ + least;
        let above = "cdc_target."@ + columns[c] + " <= "@ + most;
        let i = choose|i: int| 0 <= i < ranges.len() && ranges[i] == below;
        let j = choose|j: int| 0 <= j < ranges.len() && ranges[j] == above;
        assert(all[width + i] == below);
        assert(all[width + j] == above);
        assert(meaning(least) == meaning(least) && meaning(most) == meaning(most));
    }
}

/// Both clauses of a key set list every key once, in order, as tuples that read back as
/// the keys, under the lake names of the identity columns, and match by the predicates of
/// the key set.
pub proof fn law_key_clauses_list_every_key(
    table: Seq<char>,
    columns: Seq<ColumnSchema>,
    keys: Seq<Seq<Cell>>,
)
    ensures
        ({
            let schema = SchemaView { name: table, columns: column_views(columns) };
            let positions = identity_positions(columns);
            let names = identity_column_names(schema);
            let matching = joined(key_predicates(names, key_cells(keys)), " AND "@);
            &&& names.len() == positions.len()
            &&& forall|c: int|
                0 <= c < positions.len() ==> identifier(#[trigger] names[c]) == Some(
                    lowered(columns[positions[c]].name@),
                )
            &&& exists|tuples: Seq<Seq<char>>|
                {
                    let relation = "(VALUES "@ + #[trigger] joined(tuples, ","@)
                        + ") AS cdc_keys("@ + joined(names, ","@) + ")"@;
                    &&& using_clause(names, key_cells(keys)) == "USING "@ + relation + " WHERE "@
                        + matching
                    &&& join_clause(names, key_cells(keys)) == " JOIN "@ + relation + " ON "@
                        + matching
                    &&& tuples.len() == keys.len()
                    &&& forall|k: int, c: int|
                        #![trigger tuples[k], keys[k][c]]
                        0 <= k < keys.len() && 0 <= c < keys[k].len() ==> {
                            let body = inside(tuples[k], "("@, ")"@);
                            &&& body is Some
                            &&& items(body->0).len() == keys[k].len()
                            &&& reads_as(items(body->0)[c], keys[k][c])
                        }
                }
        }),
{
    let schema = SchemaView { name: table, columns: column_views(columns) };
    let positions = identity_positions(columns);
    let names = identity_column_names(schema);
    law_identity_indexes_are_the_identity_columns(columns);
    lemma_identity_indexes(schema.columns);
    assert forall|c: int| 0 <= c < positions.len() implies identifier(#[trigger] names[c])
        == Some(lowered(columns[positions[c]].name@)) by {
        law_lake_column_reads_back(columns[positions[c]]);
        assert(schema.columns[positions[c]] == columns[positions[c]]@);
    }
    let tuples = key_tuples(key_cells(keys));
    assert forall|k: int, c: int|
        #![trigger tuples[k], keys[k][c]]
        0 <= k < keys.len() && 0 <= c < keys[k].len() implies {
        let body = inside(tuples[k], "("@, ")"@);
        &&& body is Some
        &&& items(body->0).len() == keys[k].len()
        &&& reads_as(items(body->0)[c], keys[k][c])
    } by {
        law_key_tuple_reads_back(keys[k]);
        assert(tuples[k] == key_tuple(keys[k].map_values(|cell: Cell| component_of(cell@))));
    }
    let relation = "(VALUES "@ + joined(tuples, ","@) + ") AS cdc_keys("@ + joined(names, ","@)
        + ")"@;
    assert(key_relation(names, key_cells(keys)) == relation);
}

} // verus!
