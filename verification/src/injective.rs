//! Rendered identities are unambiguous.

use vstd::arithmetic::div_mod::{
    lemma_div_denominator, lemma_fundamental_div_mod, lemma_mod_breakdown,
};
use vstd::prelude::*;

use crate::data::{CellView, OldRowView, ScalarView};
use crate::identity::{
    canonical_column, canonical_identity, identity_columns, identity_term, identity_terms, identity_text, key_cells,
    row_predicate,
};
use crate::literal::{cell_literal, uuid_text};
use crate::schema::{lake_column, ColumnView, SchemaView, TypeKind};
use crate::text::{
    decimal, decimal_int, digit_char, hex, hex_span, joined, lemma_hex_length,
    lemma_hex_span_positive,
};

verus! {

/// Whether a cell is `NULL` or a value of its canonical column's own type.
pub open spec fn canonical_cell(column: ColumnView, cell: CellView) -> bool {
    cell is Null || match column.kind {
        TypeKind::Int2 => cell matches CellView::Value(ScalarView::I16(_)),
        TypeKind::Int4 => cell matches CellView::Value(ScalarView::I32(_)),
        TypeKind::Int8 => cell matches CellView::Value(ScalarView::I64(_)),
        TypeKind::Uuid => cell matches CellView::Value(ScalarView::Uuid(_)),
        _ => false,
    }
}

/// Whether every cell is canonical for its column.
pub open spec fn canonical_cells(columns: Seq<ColumnView>, cells: Seq<CellView>) -> bool {
    &&& cells.len() == columns.len()
    &&& forall|k: int|
        0 <= k < columns.len() ==> canonical_cell(#[trigger] columns[k], cells[k])
}

proof fn lemma_digits_differ(left: nat, right: nat)
    requires
        left < 16,
        right < 16,
        digit_char(left) == digit_char(right),
    ensures
        left == right,
{
}

proof fn lemma_decimal_injective(left: nat, right: nat)
    requires
        decimal(left) == decimal(right),
    ensures
        left == right,
    decreases left,
{
    lemma_decimal_shape(left);
    lemma_decimal_shape(right);
    if left < 10 && right < 10 {
        assert(decimal(left) == seq![digit_char(left)]);
        assert(decimal(right) == seq![digit_char(right)]);
        assert(decimal(left)[0] == digit_char(left));
        assert(decimal(right)[0] == digit_char(right));
        lemma_digits_differ(left, right);
    } else if left >= 10 && right >= 10 {
        assert(decimal(left) == decimal(left / 10).push(digit_char(left % 10)));
        assert(decimal(right) == decimal(right / 10).push(digit_char(right % 10)));
        assert(decimal(left).drop_last() =~= decimal(left / 10));
        assert(decimal(right).drop_last() =~= decimal(right / 10));
        assert(decimal(left).last() == digit_char(left % 10));
        assert(decimal(right).last() == digit_char(right % 10));
        lemma_decimal_injective(left / 10, right / 10);
        lemma_digits_differ(left % 10, right % 10);
    }
}

/// A decimal numeral holds digits alone, and more than one of them exactly from
/// ten on.
proof fn lemma_decimal_shape(value: nat)
    ensures
        decimal(value).len() >= 1,
        value < 10 ==> decimal(value).len() == 1,
        value >= 10 ==> decimal(value).len() >= 2,
        forall|i: int|
            0 <= i < decimal(value).len() ==> '0' <= #[trigger] decimal(value)[i] <= '9',
    decreases value,
{
    if value >= 10 {
        lemma_decimal_shape(value / 10);
        let text = decimal(value);
        assert forall|i: int| 0 <= i < text.len() implies '0' <= #[trigger] text[i] <= '9' by {
            if i < text.len() - 1 {
                assert(text[i] == decimal(value / 10)[i]);
            }
        }
    }
}

proof fn lemma_decimal_int_injective(left: int, right: int)
    requires
        decimal_int(left) == decimal_int(right),
    ensures
        left == right,
{
    if left < 0 {
        lemma_decimal_shape((-left) as nat);
    } else {
        lemma_decimal_shape(left as nat);
    }
    if right < 0 {
        lemma_decimal_shape((-right) as nat);
    } else {
        lemma_decimal_shape(right as nat);
    }
    assert(decimal_int(left)[0] == decimal_int(right)[0]);
    if left < 0 && right < 0 {
        assert(decimal_int(left).skip(1) =~= decimal((-left) as nat));
        assert(decimal_int(right).skip(1) =~= decimal((-right) as nat));
        lemma_decimal_injective((-left) as nat, (-right) as nat);
    } else if left >= 0 && right >= 0 {
        lemma_decimal_injective(left as nat, right as nat);
    } else if left < 0 {
        assert(decimal_int(left)[0] == '-');
        assert('0' <= decimal(right as nat)[0]);
    } else {
        assert(decimal_int(right)[0] == '-');
        assert('0' <= decimal(left as nat)[0]);
    }
}

/// A rendered integer holds no space.
proof fn lemma_decimal_int_has_no_space(value: int)
    ensures
        !decimal_int(value).contains(' '),
{
    if value < 0 {
        lemma_decimal_shape((-value) as nat);
        assert forall|i: int| 0 <= i < decimal_int(value).len() implies decimal_int(value)[i] != ' ' by {
            if i > 0 {
                assert(decimal_int(value)[i] == decimal((-value) as nat)[i - 1]);
            }
        }
    } else {
        lemma_decimal_shape(value as nat);
    }
}

/// Equal digits, equal numbers, up to what the digits leave out.
proof fn lemma_hex_injective(left: nat, right: nat, width: nat)
    requires
        hex(left, width) == hex(right, width),
    ensures
        left % hex_span(width) == right % hex_span(width),
    decreases width,
{
    if width > 0 {
        let less = (width - 1) as nat;
        lemma_hex_span_positive(less);
        assert(hex(left, width) == hex(left / 16, less).push(digit_char(left % 16)));
        assert(hex(right, width) == hex(right / 16, less).push(digit_char(right % 16)));
        assert(hex(left, width).drop_last() =~= hex(left / 16, less));
        assert(hex(right, width).drop_last() =~= hex(right / 16, less));
        assert(hex(left, width).last() == digit_char(left % 16));
        assert(hex(right, width).last() == digit_char(right % 16));
        lemma_digits_differ(left % 16, right % 16);
        lemma_hex_injective(left / 16, right / 16, less);
        lemma_mod_breakdown(left as int, 16, hex_span(less) as int);
        lemma_mod_breakdown(right as int, 16, hex_span(less) as int);
    }
}

/// Equal digits, and equal numbers before them, equal numbers.
proof fn lemma_hex_exact(left: nat, right: nat, width: nat)
    requires
        hex(left, width) == hex(right, width),
        left / hex_span(width) == right / hex_span(width),
    ensures
        left == right,
{
    lemma_hex_span_positive(width);
    lemma_hex_injective(left, right, width);
    lemma_fundamental_div_mod(left as int, hex_span(width) as int);
    lemma_fundamental_div_mod(right as int, hex_span(width) as int);
}

/// The parts of a UUID text are at fixed places.
proof fn lemma_uuid_injective(left: u128, right: u128)
    requires
        uuid_text(left) == uuid_text(right),
    ensures
        left == right,
{
    let l = uuid_text(left);
    let r = uuid_text(right);
    reveal_strlit("-");
    let l1 = (left / 0x1000000000000000000000000u128) as nat;
    let l2 = (left / 0x100000000000000000000u128) as nat;
    let l3 = (left / 0x10000000000000000u128) as nat;
    let l4 = (left / 0x1000000000000u128) as nat;
    let l5 = left as nat;
    let r1 = (right / 0x1000000000000000000000000u128) as nat;
    let r2 = (right / 0x100000000000000000000u128) as nat;
    let r3 = (right / 0x10000000000000000u128) as nat;
    let r4 = (right / 0x1000000000000u128) as nat;
    let r5 = right as nat;
    lemma_hex_length(l1, 8);
    lemma_hex_length(l2, 4);
    lemma_hex_length(l3, 4);
    lemma_hex_length(l4, 4);
    lemma_hex_length(l5, 12);
    lemma_hex_length(r1, 8);
    lemma_hex_length(r2, 4);
    lemma_hex_length(r3, 4);
    lemma_hex_length(r4, 4);
    lemma_hex_length(r5, 12);
    assert(l.subrange(0, 8) =~= hex(l1, 8));
    assert(r.subrange(0, 8) =~= hex(r1, 8));
    assert(l.subrange(9, 13) =~= hex(l2, 4));
    assert(r.subrange(9, 13) =~= hex(r2, 4));
    assert(l.subrange(14, 18) =~= hex(l3, 4));
    assert(r.subrange(14, 18) =~= hex(r3, 4));
    assert(l.subrange(19, 23) =~= hex(l4, 4));
    assert(r.subrange(19, 23) =~= hex(r4, 4));
    assert(l.subrange(24, 36) =~= hex(l5, 12));
    assert(r.subrange(24, 36) =~= hex(r5, 12));
    reveal_with_fuel(hex_span, 13);
    assert(hex_span(4) == 0x10000);
    assert(hex_span(8) == 0x100000000);
    assert(hex_span(12) == 0x1000000000000);
    lemma_hex_exact(l1, r1, 8);
    lemma_div_denominator(l5 as int, 0x100000000000000000000int, 0x10000int);
    lemma_div_denominator(r5 as int, 0x100000000000000000000int, 0x10000int);
    lemma_hex_exact(l2, r2, 4);
    lemma_div_denominator(l5 as int, 0x10000000000000000int, 0x10000int);
    lemma_div_denominator(r5 as int, 0x10000000000000000int, 0x10000int);
    lemma_hex_exact(l3, r3, 4);
    lemma_div_denominator(l5 as int, 0x1000000000000int, 0x10000int);
    lemma_div_denominator(r5 as int, 0x1000000000000int, 0x10000int);
    lemma_hex_exact(l4, r4, 4);
    lemma_hex_exact(l5, r5, 12);
}

/// Two texts up to the first space are equal when what follows them starts with
/// a space, or is nothing.
proof fn lemma_up_to_space(
    left: Seq<char>,
    left_rest: Seq<char>,
    right: Seq<char>,
    right_rest: Seq<char>,
)
    requires
        left + left_rest == right + right_rest,
        !left.contains(' '),
        !right.contains(' '),
        left_rest.len() == 0 || left_rest[0] == ' ',
        right_rest.len() == 0 || right_rest[0] == ' ',
    ensures
        left == right,
        left_rest == right_rest,
{
    let whole = left + left_rest;
    if left.len() < right.len() {
        assert(whole[left.len() as int] == right[left.len() as int]);
        if left_rest.len() > 0 {
            assert(whole[left.len() as int] == left_rest[0]);
            assert(right.contains(' '));
        }
        assert(whole.len() == left.len() + left_rest.len());
        assert(false);
    }
    if right.len() < left.len() {
        assert(whole[right.len() as int] == left[right.len() as int]);
        if right_rest.len() > 0 {
            assert(whole[right.len() as int] == right_rest[0]);
            assert(left.contains(' '));
        }
        assert(whole.len() == right.len() + right_rest.len());
        assert(false);
    }
    lemma_equal_prefix(left, left_rest, right, right_rest);
}

proof fn lemma_equal_prefix(
    left: Seq<char>,
    left_rest: Seq<char>,
    right: Seq<char>,
    right_rest: Seq<char>,
)
    requires
        left + left_rest == right + right_rest,
        left.len() == right.len(),
    ensures
        left == right,
        left_rest == right_rest,
{
    assert((left + left_rest).take(left.len() as int) =~= left);
    assert((right + right_rest).take(left.len() as int) =~= right);
    assert((left + left_rest).skip(left.len() as int) =~= left_rest);
    assert((right + right_rest).skip(left.len() as int) =~= right_rest);
}

/// Joined parts start with the first of them.
proof fn lemma_joined_front(parts: Seq<Seq<char>>, separator: Seq<char>)
    requires
        parts.len() >= 1,
    ensures
        joined(parts, separator) == parts[0] + (if parts.len() == 1 {
            Seq::empty()
        } else {
            separator + joined(parts.drop_first(), separator)
        }),
    decreases parts.len(),
{
    if parts.len() == 1 {
        assert(parts[0] + Seq::<char>::empty() =~= parts[0]);
    } else if parts.len() == 2 {
        assert(joined(parts.drop_first(), separator) == parts.drop_first()[0]);
        assert(joined(parts.drop_last(), separator) == parts.drop_last()[0]);
        assert(joined(parts, separator) =~= parts[0] + (separator + parts[1]));
    } else {
        let shorter = parts.drop_last();
        lemma_joined_front(shorter, separator);
        assert(shorter.drop_first() =~= parts.drop_first().drop_last());
        let rest = parts.drop_first();
        assert(joined(rest, separator) == joined(rest.drop_last(), separator) + separator
            + rest.last());
        assert(joined(parts, separator) =~= parts[0] + (separator + joined(rest, separator)));
    }
}

/// What follows the first identity term starts with a space, or is nothing.
spec fn after_first(terms: Seq<Seq<char>>) -> Seq<char> {
    if terms.len() == 1 {
        Seq::empty()
    } else {
        " AND "@ + joined(terms.drop_first(), " AND "@)
    }
}

/// The first term tells its cell.
proof fn lemma_first_term(
    column: ColumnView,
    left: CellView,
    left_rest: Seq<char>,
    right: CellView,
    right_rest: Seq<char>,
)
    requires
        canonical_column(column),
        canonical_cell(column, left),
        canonical_cell(column, right),
        identity_term(column, left) + left_rest == identity_term(column, right) + right_rest,
        left_rest.len() == 0 || left_rest[0] == ' ',
        right_rest.len() == 0 || right_rest[0] == ' ',
    ensures
        left == right,
        left_rest == right_rest,
{
    let name = lake_column(column);
    reveal_strlit(" IS NULL");
    reveal_strlit(" = ");
    reveal_strlit("CAST('");
    reveal_strlit("' AS UUID)");
    let whole = identity_term(column, left) + left_rest;
    if left is Null && right is Null {
        lemma_equal_prefix(
            identity_term(column, left),
            left_rest,
            identity_term(column, right),
            right_rest,
        );
    } else if left is Null {
        assert(whole[name.len() as int + 1] == 'I');
        assert((identity_term(column, right) + right_rest)[name.len() as int + 1] == '=');
    } else if right is Null {
        assert(whole[name.len() as int + 1] == '=');
        assert((identity_term(column, right) + right_rest)[name.len() as int + 1] == 'I');
    } else {
        let l = cell_literal(left);
        let r = cell_literal(right);
        let lead = name + " = "@;
        assert(identity_term(column, left) + left_rest =~= lead + (l + left_rest));
        assert(identity_term(column, right) + right_rest =~= lead + (r + right_rest));
        lemma_equal_prefix(lead, l + left_rest, lead, r + right_rest);
        match (left, right) {
            (
                CellView::Value(ScalarView::Uuid(left_value)),
                CellView::Value(ScalarView::Uuid(right_value)),
            ) => {
                lemma_uuid_len(left_value);
                lemma_uuid_len(right_value);
                lemma_equal_prefix(l, left_rest, r, right_rest);
                let head = "CAST('"@;
                let tail = "' AS UUID)"@;
                assert(l =~= head + (uuid_text(left_value) + tail));
                assert(r =~= head + (uuid_text(right_value) + tail));
                lemma_equal_prefix(
                    head,
                    uuid_text(left_value) + tail,
                    head,
                    uuid_text(right_value) + tail,
                );
                lemma_equal_prefix(uuid_text(left_value), tail, uuid_text(right_value), tail);
                lemma_uuid_injective(left_value, right_value);
            },
            (
                CellView::Value(ScalarView::I16(left_value)),
                CellView::Value(ScalarView::I16(right_value)),
            ) => {
                lemma_integer_term(left_value as int, left_rest, right_value as int, right_rest);
            },
            (
                CellView::Value(ScalarView::I32(left_value)),
                CellView::Value(ScalarView::I32(right_value)),
            ) => {
                lemma_integer_term(left_value as int, left_rest, right_value as int, right_rest);
            },
            (
                CellView::Value(ScalarView::I64(left_value)),
                CellView::Value(ScalarView::I64(right_value)),
            ) => {
                lemma_integer_term(left_value as int, left_rest, right_value as int, right_rest);
            },
            _ => {},
        }
    }
}

proof fn lemma_integer_term(left: int, left_rest: Seq<char>, right: int, right_rest: Seq<char>)
    requires
        decimal_int(left) + left_rest == decimal_int(right) + right_rest,
        left_rest.len() == 0 || left_rest[0] == ' ',
        right_rest.len() == 0 || right_rest[0] == ' ',
    ensures
        left == right,
        left_rest == right_rest,
{
    lemma_decimal_int_has_no_space(left);
    lemma_decimal_int_has_no_space(right);
    lemma_up_to_space(decimal_int(left), left_rest, decimal_int(right), right_rest);
    lemma_decimal_int_injective(left, right);
}

proof fn lemma_uuid_len(value: u128)
    ensures
        uuid_text(value).len() == 36,
{
    reveal_strlit("-");
    lemma_hex_length((value / 0x1000000000000000000000000u128) as nat, 8);
    lemma_hex_length((value / 0x100000000000000000000u128) as nat, 4);
    lemma_hex_length((value / 0x10000000000000000u128) as nat, 4);
    lemma_hex_length((value / 0x1000000000000u128) as nat, 4);
    lemma_hex_length(value as nat, 12);
}

proof fn lemma_identity_text_injective(
    columns: Seq<ColumnView>,
    left: Seq<CellView>,
    right: Seq<CellView>,
)
    requires
        forall|k: int| 0 <= k < columns.len() ==> canonical_column(#[trigger] columns[k]),
        canonical_cells(columns, left),
        canonical_cells(columns, right),
        identity_text(columns, left) == identity_text(columns, right),
    ensures
        left == right,
    decreases columns.len(),
{
    if columns.len() == 0 {
        assert(left =~= right);
    } else {
        let l = identity_terms(columns, left);
        let r = identity_terms(columns, right);
        lemma_joined_front(l, " AND "@);
        lemma_joined_front(r, " AND "@);
        reveal_strlit(" AND ");
        assert(canonical_column(columns[0]));
        assert(canonical_cell(columns[0], left[0]) && canonical_cell(columns[0], right[0]));
        lemma_first_term(columns[0], left[0], after_first(l), right[0], after_first(r));
        if columns.len() > 1 {
            let rest = columns.drop_first();
            let left_rest = left.drop_first();
            let right_rest = right.drop_first();
            lemma_equal_prefix(
                " AND "@,
                joined(l.drop_first(), " AND "@),
                " AND "@,
                joined(r.drop_first(), " AND "@),
            );
            assert(l.drop_first() =~= identity_terms(rest, left_rest));
            assert(r.drop_first() =~= identity_terms(rest, right_rest));
            assert forall|k: int| 0 <= k < rest.len() implies canonical_column(#[trigger] rest[k])
                && canonical_cell(rest[k], left_rest[k]) && canonical_cell(
                rest[k],
                right_rest[k],
            ) by {
                assert(rest[k] == columns[k + 1]);
                assert(canonical_column(columns[k + 1]));
            }
            lemma_identity_text_injective(rest, left_rest, right_rest);
            assert forall|k: int| 0 <= k < left.len() implies left[k] == right[k] by {
                if k > 0 {
                    assert(left[k] == left_rest[k - 1]);
                    assert(right[k] == right_rest[k - 1]);
                }
            }
        }
        assert(left =~= right);
    }
}

/// On a canonical identity two row images have the same predicate exactly when
/// they have the same identity values, so predicates can be compared in place
/// of identities.
pub proof fn law_predicate_equality_is_identity_equality(
    schema: SchemaView,
    left: OldRowView,
    right: OldRowView,
)
    requires
        canonical_identity(schema),
        key_cells(schema, left) is Ok,
        key_cells(schema, right) is Ok,
        canonical_cells(identity_columns(schema), key_cells(schema, left)->Ok_0),
        canonical_cells(identity_columns(schema), key_cells(schema, right)->Ok_0),
    ensures
        row_predicate(schema, left) == row_predicate(schema, right) <==> key_cells(schema, left)
            == key_cells(schema, right),
{
    if row_predicate(schema, left) == row_predicate(schema, right) {
        lemma_identity_text_injective(
            identity_columns(schema),
            key_cells(schema, left)->Ok_0,
            key_cells(schema, right)->Ok_0,
        );
    }
}

} // verus!
