//! Stable fingerprints of batch contents.

use vstd::prelude::*;
use vstd::utf8::{decode_utf8, encode_utf8, encode_utf8_decode_utf8};

use crate::data::{index_views, PartialRowView, PartialTableRow, TableRow};
use crate::error::{detailed_error, ErrorKind, ErrorView, EtlError};
use crate::literal::{
    cell_literal, cell_to_sql_literal_ref, row_literal, table_row_to_sql_literal_ref,
};
use crate::partial_row::{
    ascending_below, fits_table, gaps_before, law_carried_value_stands_at_its_rank,
    lemma_present_prefix, present_columns, present_rank,
};
use crate::text::{decimal, decimal_u64};

verus! {

/// Start value of a fingerprint.
pub const OFFSET_BASIS: u64 = 0xcbf29ce484222325;

/// Multiplier of a fingerprint.
pub const PRIME: u64 = 0x100000001b3;

/// One byte mixed into a fingerprint: exclusive or, then multiply.
pub open spec fn mixed(state: u64, byte: u8) -> u64 {
    (state ^ (byte as u64)).wrapping_mul(PRIME)
}

/// Bytes mixed into a fingerprint, in order.
pub open spec fn mixed_all(state: u64, bytes: Seq<u8>) -> u64
    decreases bytes.len(),
{
    if bytes.len() == 0 {
        state
    } else {
        mixed(mixed_all(state, bytes.drop_last()), bytes.last())
    }
}

/// Mixing a concatenation is mixing its parts in order.
pub proof fn lemma_mixed_concat(state: u64, left: Seq<u8>, right: Seq<u8>)
    ensures
        mixed_all(state, left + right) == mixed_all(mixed_all(state, left), right),
    decreases right.len(),
{
    if right.len() == 0 {
        assert(left + right =~= left);
    } else {
        assert((left + right).drop_last() =~= left + right.drop_last());
        lemma_mixed_concat(state, left, right.drop_last());
    }
}

/// The lowest `width` bytes of a number, lowest first.
pub open spec fn low_bytes(value: nat, width: nat) -> Seq<u8>
    decreases width,
{
    if width == 0 {
        Seq::empty()
    } else {
        seq![(value % 256) as u8] + low_bytes(value / 256, (width - 1) as nat)
    }
}

/// The bytes a text contributes: its UTF-8 form and a terminator.
pub open spec fn text_bytes(text: Seq<char>) -> Seq<u8> {
    encode_utf8(text).push(0xff)
}

/// The byte a truncate's options contribute.
pub open spec fn option_byte(options: i8) -> u8 {
    if options >= 0 {
        options as u8
    } else {
        (options as int + 256) as u8
    }
}

/// Accumulates a fingerprint.
pub struct BatchIdHasher(u64);

impl BatchIdHasher {
    /// The current fingerprint.
    pub closed spec fn state(&self) -> u64 {
        self.0
    }

    /// Creates a fingerprint of nothing.
    pub fn new() -> (r: BatchIdHasher)
        ensures
            r.state() == OFFSET_BASIS,
    {
        BatchIdHasher(OFFSET_BASIS)
    }

    /// Returns the fingerprint.
    pub fn finish(&self) -> (r: u64)
        ensures
            r == self.state(),
    {
        self.0
    }

    fn write_byte(&mut self, byte: u8)
        ensures
            final(self).state() == mixed(old(self).state(), byte),
    {
        self.0 = (self.0 ^ (byte as u64)).wrapping_mul(PRIME);
    }

    /// Mixes bytes in.
    pub fn write(&mut self, bytes: &[u8])
        ensures
            final(self).state() == mixed_all(old(self).state(), bytes@),
    {
        let ghost start = self.state();
        assert(bytes@.take(0) =~= Seq::empty());
        for i in 0..bytes.len()
            invariant
                start == old(self).state(),
                self.state() == mixed_all(start, bytes@.take(i as int)),
        {
            self.write_byte(bytes[i]);
            assert(bytes@.take(i + 1).drop_last() =~= bytes@.take(i as int));
        }
        assert(bytes@.take(bytes@.len() as int) =~= bytes@);
    }

    /// Mixes a text in.
    pub fn write_text(&mut self, text: &str)
        ensures
            final(self).state() == mixed_all(old(self).state(), text_bytes(text@)),
    {
        self.write(text.as_bytes());
        self.write_byte(0xff);
        assert(text_bytes(text@).drop_last() =~= encode_utf8(text@));
    }

    /// Mixes an integer in, lowest byte first.
    pub fn write_u64(&mut self, value: u64)
        ensures
            final(self).state() == mixed_all(old(self).state(), low_bytes(value as nat, 8)),
    {
        let ghost start = self.state();
        let ghost mut done: Seq<u8> = Seq::empty();
        let mut rest: u64 = value;
        let mut left: u64 = 8;
        assert(done + low_bytes(value as nat, 8) =~= low_bytes(value as nat, 8));
        while left > 0
            invariant
                left <= 8,
                done + low_bytes(rest as nat, left as nat) == low_bytes(value as nat, 8),
                self.state() == mixed_all(start, done),
            decreases left,
        {
            let byte: u8 = (rest % 256) as u8;
            self.write_byte(byte);
            proof {
                let grown = done.push(byte);
                assert(grown.drop_last() =~= done);
                assert(grown + low_bytes((rest / 256) as nat, (left - 1) as nat) =~= done
                    + low_bytes(rest as nat, left as nat));
                done = grown;
            }
            rest = rest / 256;
            left = left - 1;
        }
        assert(done + low_bytes(rest as nat, 0) =~= done);
    }

    /// Mixes a truncate's options in.
    pub fn write_options(&mut self, options: i8)
        ensures
            final(self).state() == mixed_all(old(self).state(), seq![option_byte(options)]),
    {
        let byte: u8 = if options >= 0 {
            options as u8
        } else {
            (options as i16 + 256) as u8
        };
        assert(byte == option_byte(options));
        self.write_byte(byte);
        proof {
            let bytes = seq![byte];
            assert(bytes.drop_last() =~= Seq::<u8>::empty());
            assert(bytes.last() == byte);
            assert(mixed_all(old(self).state(), bytes.drop_last()) == old(self).state());
        }
    }
}

/// The longest prefix of indexes that strictly ascends below `bound`.
pub open spec fn longest_ascending(indexes: Seq<int>, bound: int) -> Seq<int>
    decreases indexes.len(),
{
    if indexes.len() == 0 || ascending_below(indexes, bound) {
        indexes
    } else {
        longest_ascending(indexes.drop_last(), bound)
    }
}

proof fn lemma_longest_ascending(indexes: Seq<int>, bound: int)
    ensures
        longest_ascending(indexes, bound).len() <= indexes.len(),
        longest_ascending(indexes, bound) == indexes.take(
            longest_ascending(indexes, bound).len() as int,
        ),
        ascending_below(longest_ascending(indexes, bound), bound),
        longest_ascending(indexes, bound).len() < indexes.len() ==> !ascending_below(
            indexes.take(longest_ascending(indexes, bound).len() as int + 1),
            bound,
        ),
    decreases indexes.len(),
{
    if indexes.len() == 0 || ascending_below(indexes, bound) {
        assert(indexes.take(indexes.len() as int) =~= indexes);
    } else {
        let shorter = indexes.drop_last();
        lemma_longest_ascending(shorter, bound);
        let found = longest_ascending(shorter, bound);
        assert(shorter.take(found.len() as int) =~= indexes.take(found.len() as int));
        if found.len() < shorter.len() {
            assert(shorter.take(found.len() as int + 1) =~= indexes.take(found.len() as int + 1));
        } else {
            assert(indexes.take(indexes.len() as int) =~= indexes);
        }
    }
}

/// The columns a partial row has values for. Indexes out of order after the
/// leading ascending ones are not skipped.
pub open spec fn carried_columns(row: PartialRowView) -> Seq<int> {
    present_columns(longest_ascending(row.missing, row.total as int), row.total)
}

/// The bytes the first `count` values of a partial row contribute.
pub open spec fn carried_bytes(row: PartialRowView, count: nat) -> Seq<u8>
    decreases count,
{
    if count == 0 {
        Seq::empty()
    } else {
        carried_bytes(row, (count - 1) as nat) + low_bytes(
            carried_columns(row)[count - 1] as nat,
            8,
        ) + text_bytes(cell_literal(row.values[count - 1]))
    }
}

/// The error of a partial row that ends before a column it should carry.
pub open spec fn ended_before_error(column: nat) -> ErrorView {
    detailed_error(
        ErrorKind::InvalidState,
        "DuckLake partial row shape is inconsistent"@,
        "Partial row ended before replicated column index "@ + decimal(column),
    )
}

/// The error of a partial row with more values than columns to carry.
pub open spec fn surplus_values_error() -> ErrorView {
    detailed_error(
        ErrorKind::InvalidState,
        "DuckLake partial row shape is inconsistent"@,
        "Partial row contained more present values than its missing indexes allow"@,
    )
}

/// The bytes a partial row contributes: its width, then the index and literal
/// of each carried column.
pub open spec fn partial_row_bytes(row: PartialRowView) -> Result<Seq<u8>, ErrorView> {
    if row.values.len() < carried_columns(row).len() {
        Err(ended_before_error(carried_columns(row)[row.values.len() as int] as nat))
    } else if row.values.len() > carried_columns(row).len() {
        Err(surplus_values_error())
    } else {
        Ok(low_bytes(row.total, 8) + carried_bytes(row, row.values.len()))
    }
}

/// Mixes a row in by its SQL literal, independent of how it is loaded.
pub fn hash_table_row_ref(hasher: &mut BatchIdHasher, row: &TableRow)
    ensures
        final(hasher).state() == mixed_all(old(hasher).state(), text_bytes(row_literal(row@))),
{
    hasher.write_text(table_row_to_sql_literal_ref(row).as_str());
}

/// Mixes a partial row in by the indexes and literals of its columns.
pub fn hash_partial_table_row_ref(hasher: &mut BatchIdHasher, row: &PartialTableRow) -> (r: Result<
    (),
    EtlError,
>)
    ensures
        match r {
            Ok(_) => partial_row_bytes(row@) is Ok && final(hasher).state() == mixed_all(
                old(hasher).state(),
                partial_row_bytes(row@)->Ok_0,
            ),
            Err(error) => partial_row_bytes(row@) == Err::<Seq<u8>, ErrorView>(error@),
        },
{
    let ghost start = hasher.state();
    let ghost total = row@.total;
    let ghost gaps = row@.missing;
    let ghost skips = longest_ascending(gaps, total as int);
    let ghost carried = carried_columns(row@);
    proof {
        lemma_longest_ascending(gaps, total as int);
    }
    hasher.write_u64(row.total_columns as u64);
    let mut skipped: usize = 0;
    let mut used: usize = 0;
    proof {
        assert(low_bytes(total, 8) + carried_bytes(row@, 0) =~= low_bytes(total, 8));
    }
    for column in 0..row.total_columns
        invariant
            total == row@.total,
            total == row.total_columns,
            gaps == row@.missing,
            gaps == index_views(row.missing@),
            skips == longest_ascending(gaps, total as int),
            skips.len() <= gaps.len(),
            skips == gaps.take(skips.len() as int),
            ascending_below(skips, total as int),
            skips.len() < gaps.len() ==> !ascending_below(
                gaps.take(skips.len() as int + 1),
                total as int,
            ),
            carried == carried_columns(row@),
            carried == present_columns(skips, total),
            skipped <= skips.len(),
            forall|k: int| 0 <= k < skipped ==> #[trigger] skips[k] < column,
            forall|k: int| skipped <= k < skips.len() ==> column <= #[trigger] skips[k],
            used == present_columns(skips, column as nat).len(),
            used <= row.row.values@.len(),
            hasher.state() == mixed_all(
                start,
                low_bytes(total, 8) + carried_bytes(row@, used as nat),
            ),
    {
        proof {
            lemma_present_prefix(skips, column as nat, total);
            lemma_present_prefix(skips, (column + 1) as nat, total);
        }
        if skipped < row.missing.len() && row.missing[skipped] == column {
            proof {
                assert(gaps[skipped as int] == column);
                if skipped == skips.len() {
                    let grown = gaps.take(skipped + 1);
                    assert(grown =~= skips.push(column as int));
                    assert forall|j: int, k: int| 0 <= j < k < grown.len() implies #[trigger] grown[j]
                        < #[trigger] grown[k] by {
                        if k == skipped {
                            assert(skips[j] < column);
                        } else {
                            assert(skips[j] < skips[k]);
                        }
                    }
                    assert forall|k: int| 0 <= k < grown.len() implies 0 <= #[trigger] grown[k]
                        < total by {
                        if k < skipped {
                            assert(skips[k] < total);
                        }
                    }
                    assert(false);
                }
                assert(skips[skipped as int] == gaps[skipped as int]);
                assert(skips.contains(column as int));
                assert forall|k: int| skipped + 1 <= k < skips.len() implies column + 1
                    <= #[trigger] skips[k] by {
                    assert(skips[skipped as int] < skips[k]);
                }
            }
            skipped = skipped + 1;
        } else {
            proof {
                if skips.contains(column as int) {
                    let k = choose|k: int| 0 <= k < skips.len() && skips[k] == column;
                    if k > skipped {
                        assert(skips[skipped as int] < skips[k]);
                    }
                    assert(k == skipped);
                    assert(gaps[skipped as int] == skips[skipped as int]);
                    assert(false);
                }
                let grown = present_columns(skips, (column + 1) as nat);
                assert(grown[used as int] == column);
                assert(carried[used as int] == column);
                assert forall|k: int| skipped <= k < skips.len() implies column + 1
                    <= #[trigger] skips[k] by {
                    if skips[k] == column {
                        assert(skips.contains(column as int));
                    }
                }
            }
            if used >= row.row.values.len() {
                let mut detail = "Partial row ended before replicated column index ".to_owned();
                detail.append(decimal_u64(column as u64).as_str());
                return Err(
                    EtlError::with_detail(
                        ErrorKind::InvalidState,
                        "DuckLake partial row shape is inconsistent",
                        detail,
                    ),
                );
            }
            let value = &row.row.values[used];
            assert(row@.values[used as int] == value@);
            let ghost before = low_bytes(total, 8) + carried_bytes(row@, used as nat);
            hasher.write_u64(column as u64);
            hasher.write_text(cell_to_sql_literal_ref(value).as_str());
            proof {
                let index = low_bytes(column as nat, 8);
                let literal = text_bytes(cell_literal(value@));
                lemma_mixed_concat(start, before, index);
                lemma_mixed_concat(start, before + index, literal);
                assert(low_bytes(total, 8) + carried_bytes(row@, (used + 1) as nat) =~= before
                    + index + literal);
            }
            used = used + 1;
        }
    }
    if used < row.row.values.len() {
        return Err(
            EtlError::with_detail(
                ErrorKind::InvalidState,
                "DuckLake partial row shape is inconsistent",
                "Partial row contained more present values than its missing indexes allow".to_owned(),
            ),
        );
    }
    proof {
        lemma_mixed_concat(start, low_bytes(total, 8), carried_bytes(row@, used as nat));
    }
    Ok(())
}

/// The number that bytes stand for, lowest byte first.
pub open spec fn number_of(bytes: Seq<u8>) -> nat
    decreases bytes.len(),
{
    if bytes.len() == 0 {
        0
    } else {
        bytes[0] as nat + 256 * number_of(bytes.skip(1))
    }
}

/// How many numbers so many bytes tell apart.
pub open spec fn byte_span(width: nat) -> nat
    decreases width,
{
    if width == 0 {
        1
    } else {
        256 * byte_span((width - 1) as nat)
    }
}

/// The bytes of a number read back as the number, as far as so many bytes hold it.
pub proof fn law_low_bytes_read_back(value: nat, width: nat)
    ensures
        low_bytes(value, width).len() == width,
        value < byte_span(width) ==> number_of(low_bytes(value, width)) == value,
    decreases width,
{
    if width > 0 {
        let fewer = (width - 1) as nat;
        let bytes = low_bytes(value, width);
        law_low_bytes_read_back(value / 256, fewer);
        assert(bytes.skip(1) =~= low_bytes(value / 256, fewer));
        assert(bytes[0] == value % 256);
    }
}

/// The bytes of a machine number read back as the number.
pub proof fn law_number_bytes_read_back(value: u64)
    ensures
        low_bytes(value as nat, 8).len() == 8,
        number_of(low_bytes(value as nat, 8)) == value,
{
    assert(byte_span(8) == 0x1_0000_0000_0000_0000) by {
        reveal_with_fuel(byte_span, 9);
    }
    law_low_bytes_read_back(value as nat, 8);
}

/// The bytes of a text read back as the text: they are its encoding and one byte that
/// no encoding ends with.
pub proof fn law_text_bytes_read_back(text: Seq<char>)
    ensures
        text_bytes(text).len() > 0,
        text_bytes(text).last() == 0xff,
        decode_utf8(text_bytes(text).drop_last()) == text,
{
    encode_utf8_decode_utf8(text);
    assert(text_bytes(text).drop_last() =~= encode_utf8(text));
}

/// The byte of truncate options is the options modulo a byte.
pub proof fn law_option_byte_is_its_residue(options: i8)
    ensures
        option_byte(options) as int == options as int % 256,
{
}

/// One byte is mixed in by an exclusive or and a multiplication modulo the machine
/// word, and bytes one after the other from the front.
pub proof fn law_bytes_are_mixed_in_order(state: u64, byte: u8, rest: Seq<u8>)
    ensures
        mixed(state, byte) as int == ((state ^ (byte as u64)) * 0x100000001b3)
            % 0x1_0000_0000_0000_0000,
        mixed_all(state, Seq::empty()) == state,
        mixed_all(state, seq![byte] + rest) == mixed_all(mixed(state, byte), rest),
{
    lemma_mixed_concat(state, seq![byte], rest);
    assert(seq![byte].drop_last() =~= Seq::<u8>::empty());
    assert(mixed_all(state, Seq::<u8>::empty()) == state);
    assert(mixed_all(state, seq![byte]) == mixed(mixed_all(state, seq![byte].drop_last()), byte));
}

proof fn lemma_carried_bytes(row: PartialRowView, count: nat, k: int) -> (cut: (Seq<u8>, Seq<u8>))
    requires
        0 <= k < count,
    ensures
        carried_bytes(row, count) == cut.0 + low_bytes(carried_columns(row)[k] as nat, 8)
            + text_bytes(cell_literal(row.values[k])) + cut.1,
    decreases count,
{
    let fewer = (count - 1) as nat;
    let own = low_bytes(carried_columns(row)[count - 1] as nat, 8) + text_bytes(
        cell_literal(row.values[count - 1]),
    );
    if k == count - 1 {
        let cut = (carried_bytes(row, fewer), Seq::<u8>::empty());
        assert(carried_bytes(row, count) =~= cut.0 + low_bytes(
            carried_columns(row)[k] as nat,
            8,
        ) + text_bytes(cell_literal(row.values[k])) + cut.1);
        cut
    } else {
        let shorter = lemma_carried_bytes(row, fewer, k);
        let cut = (shorter.0, shorter.1 + own);
        assert(carried_bytes(row, count) =~= cut.0 + low_bytes(
            carried_columns(row)[k] as nat,
            8,
        ) + text_bytes(cell_literal(row.values[k])) + cut.1);
        cut
    }
}

/// The bytes of a partial row start with its width and name every carried value with
/// its column. A row that fits a table has bytes.
pub proof fn law_partial_row_bytes_name_every_carried_value(
    partial: PartialTableRow,
    column: int,
)
    requires
        fits_table(partial, partial.total_columns as nat),
        0 <= column < partial.total_columns,
        !partial.missing@.contains(column as usize),
    ensures
        partial_row_bytes(partial@) matches Ok(bytes) && {
            &&& bytes.len() >= 8
            &&& number_of(bytes.take(8)) == partial.total_columns
            &&& exists|lead: Seq<u8>, rest: Seq<u8>|
                #![trigger lead + rest]
                bytes == lead + low_bytes(column as nat, 8) + text_bytes(
                    cell_literal(
                        partial.row.values@[column - gaps_before(partial.missing@, column)]@,
                    ),
                ) + rest
        },
{
    let row = partial@;
    let width = partial.total_columns as nat;
    let rank = column - gaps_before(partial.missing@, column);
    law_carried_value_stands_at_its_rank(partial, width, column);
    if row.missing.contains(column) {
        let k = choose|k: int|
            0 <= k < partial.missing@.len() && #[trigger] partial.missing@[k] == column;
        assert(partial.missing@[k] == column as usize);
    }
    assert(longest_ascending(row.missing, row.total as int) == row.missing);
    assert(carried_columns(row) == present_columns(row.missing, width));
    assert(carried_columns(row)[rank] == column);
    let cut = lemma_carried_bytes(row, row.values.len(), rank);
    law_number_bytes_read_back(partial.total_columns as u64);
    let bytes = partial_row_bytes(row)->Ok_0;
    assert(bytes.take(8) =~= low_bytes(row.total, 8));
    let lead = low_bytes(row.total, 8) + cut.0;
    let rest = cut.1;
    assert(row.values[rank] == partial.row.values@[rank]@);
    assert(bytes =~= lead + low_bytes(column as nat, 8) + text_bytes(
        cell_literal(partial.row.values@[rank]@),
    ) + rest);
    assert(lead + rest == lead + rest);
}

/// The columns that a fingerprint takes for missing are the longest run from the front of
/// those named that are columns of the row in ascending order.
pub proof fn law_missing_columns_are_taken_while_they_ascend(indexes: Seq<int>, bound: int)
    ensures
        ({
            let taken = longest_ascending(indexes, bound);
            &&& taken.len() <= indexes.len()
            &&& taken == indexes.take(taken.len() as int)
            &&& taken.len() == 0 || ascending_below(taken, bound)
            &&& taken.len() < indexes.len() ==> !ascending_below(
                indexes.take(taken.len() as int + 1),
                bound,
            )
        }),
    decreases indexes.len(),
{
    let taken = longest_ascending(indexes, bound);
    if indexes.len() == 0 || ascending_below(indexes, bound) {
        assert(indexes.take(indexes.len() as int) =~= indexes);
    } else {
        let shorter = indexes.drop_last();
        law_missing_columns_are_taken_while_they_ascend(shorter, bound);
        assert(shorter.take(taken.len() as int) =~= indexes.take(taken.len() as int));
        if taken.len() < shorter.len() {
            assert(shorter.take(taken.len() as int + 1) =~= indexes.take(taken.len() as int + 1));
        } else {
            assert(indexes.take(taken.len() as int + 1) =~= indexes);
        }
    }
}

/// A partial row has bytes exactly when it has one value for every column that is not taken
/// for missing.
pub proof fn law_partial_row_bytes_need_a_value_for_every_column(row: PartialRowView)
    ensures
        partial_row_bytes(row) is Ok <==> row.values.len() == present_rank(
            longest_ascending(row.missing, row.total as int),
            row.total as int,
        ),
        partial_row_bytes(row) matches Ok(bytes) ==> low_bytes(row.total, 8).is_prefix_of(bytes),
{
    if partial_row_bytes(row) is Ok {
        let bytes = partial_row_bytes(row)->Ok_0;
        let lead = low_bytes(row.total, 8);
        assert(bytes.subrange(0, lead.len() as int) =~= lead);
    }
}

/// A partial row without bytes says which column it ended before, or that it has more
/// values than columns.
pub proof fn law_partial_rows_without_bytes_say_why(row: PartialRowView)
    ensures
        ({
            let carried = present_columns(
                longest_ascending(row.missing, row.total as int),
                row.total,
            );
            partial_row_bytes(row) matches Err(error) ==> {
                &&& error.kind is InvalidState
                &&& error.description == "DuckLake partial row shape is inconsistent"@
                &&& row.values.len() < carried.len() ==> error.detail == Some(
                    "Partial row ended before replicated column index "@ + decimal(
                        carried[row.values.len() as int] as nat,
                    ),
                )
                &&& row.values.len() > carried.len() ==> error.detail == Some(
                    "Partial row contained more present values than its missing indexes allow"@,
                )
            }
        }),
{
}

} // verus!
