//! Source positions of events.

use vstd::prelude::*;

use crate::external::hex_number;
use crate::reading::{law_hex_reads_back, law_number_literal_reads_back, meaning, Meaning};
use crate::text::{decimal, decimal_int, decimal_u64, fixed_hex, hex, hex_span};

verus! {

/// A position in the source's write-ahead log.
#[derive(Clone, Copy, Debug, PartialEq, Eq, Structural)]
pub struct PgLsn(pub u64);

/// The position of one event: its transaction's commit position, then its place
/// in the transaction.
#[derive(Clone, Copy, Debug, PartialEq, Eq, Structural)]
pub struct EventSequenceKey {
    pub commit_lsn: PgLsn,
    pub tx_ordinal: u64,
}

impl EventSequenceKey {
    /// Creates a sequence key.
    pub fn new(commit_lsn: PgLsn, tx_ordinal: u64) -> (r: EventSequenceKey)
        ensures
            r == (EventSequenceKey { commit_lsn, tx_ordinal }),
    {
        EventSequenceKey { commit_lsn, tx_ordinal }
    }
}

/// Whether `left` comes before `right`.
pub open spec fn key_before(left: EventSequenceKey, right: EventSequenceKey) -> bool {
    left.commit_lsn.0 < right.commit_lsn.0 || (left.commit_lsn.0 == right.commit_lsn.0
        && left.tx_ordinal < right.tx_ordinal)
}

/// Compares two sequence keys by commit position, then by place in the
/// transaction.
pub fn compare_sequence_keys(left: EventSequenceKey, right: EventSequenceKey) -> (r:
    core::cmp::Ordering)
    ensures
        r == core::cmp::Ordering::Less <==> key_before(left, right),
        r == core::cmp::Ordering::Equal <==> left == right,
        r == core::cmp::Ordering::Greater <==> key_before(right, left),
{
    if left.commit_lsn.0 < right.commit_lsn.0 {
        core::cmp::Ordering::Less
    } else if left.commit_lsn.0 > right.commit_lsn.0 {
        core::cmp::Ordering::Greater
    } else if left.tx_ordinal < right.tx_ordinal {
        core::cmp::Ordering::Less
    } else if left.tx_ordinal > right.tx_ordinal {
        core::cmp::Ordering::Greater
    } else {
        core::cmp::Ordering::Equal
    }
}

/// The order of sequence keys is total: of two keys, one comes first or they
/// are the same; and it is transitive.
pub proof fn law_sequence_keys_are_totally_ordered(
    a: EventSequenceKey,
    b: EventSequenceKey,
    c: EventSequenceKey,
)
    ensures
        key_before(a, b) || a == b || key_before(b, a),
        !(key_before(a, b) && key_before(b, a)),
        key_before(a, b) && key_before(b, c) ==> key_before(a, c),
{
}

/// The place of an event in the source's log as one number: the commit position
/// counts before the place in the transaction.
pub open spec fn position(key: EventSequenceKey) -> int {
    key.commit_lsn.0 * 0x1_0000_0000_0000_0000 + key.tx_ordinal
}

/// Of two events the one whose number is smaller comes first: the one with the
/// numerically smaller commit position and, in one transaction, the one with the
/// smaller ordinal. Distinct events have distinct numbers.
pub proof fn law_keys_are_ordered_by_their_numbers(left: EventSequenceKey, right: EventSequenceKey)
    ensures
        key_before(left, right) <==> position(left) < position(right),
        left == right <==> position(left) == position(right),
        left.commit_lsn.0 < right.commit_lsn.0 ==> key_before(left, right) && !key_before(
            right,
            left,
        ),
        left.commit_lsn == right.commit_lsn ==> (key_before(left, right) <==> left.tx_ordinal
            < right.tx_ordinal),
{
}

/// The fixed-width hexadecimal text of a sequence key.
pub open spec fn sequence_key_text(key: EventSequenceKey) -> Seq<char> {
    hex(key.commit_lsn.0 as nat, 16) + "/"@ + hex(key.tx_ordinal as nat, 16)
}

/// Formats a sequence key in fixed-width hexadecimal.
pub fn format_sequence_key(key: EventSequenceKey) -> (r: String)
    ensures
        r@ == sequence_key_text(key),
{
    let mut text = fixed_hex(key.commit_lsn.0 as u128, 16);
    text.append("/");
    text.append(fixed_hex(key.tx_ordinal as u128, 16).as_str());
    text
}

/// Formats an optional sequence key.
pub fn format_optional_sequence_key(key: Option<EventSequenceKey>) -> (r: String)
    ensures
        r@ == (match key {
            None => "none"@,
            Some(key) => sequence_key_text(key),
        }),
{
    match key {
        None => "none".to_owned(),
        Some(key) => format_sequence_key(key),
    }
}

/// The character for a digit value below sixteen, in uppercase hexadecimal.
pub open spec fn upper_digit_char(value: nat) -> char {
    if value < 10 {
        (48 + value) as char
    } else {
        (55 + value) as char
    }
}

/// The uppercase hexadecimal numeral of a number, without leading zeros.
pub open spec fn upper_hex(value: nat) -> Seq<char>
    decreases value,
{
    if value < 16 {
        seq![upper_digit_char(value)]
    } else {
        upper_hex(value / 16).push(upper_digit_char(value % 16))
    }
}

fn push_upper_hex(text: &mut String, value: u64)
    ensures
        final(text)@ == old(text)@ + upper_hex(value as nat),
    decreases value,
{
    if value >= 16 {
        push_upper_hex(text, value / 16);
    }
    let low: u8 = (value % 16) as u8;
    let character = if low < 10 {
        (48u8 + low) as char
    } else {
        (55u8 + low) as char
    };
    text.push(character);
    assert(text@ =~= old(text)@ + upper_hex(value as nat));
}

/// The text of a log position: its high and low halves in hexadecimal.
pub open spec fn lsn_text(lsn: PgLsn) -> Seq<char> {
    upper_hex((lsn.0 / 0x1_0000_0000) as nat) + "/"@ + upper_hex((lsn.0 % 0x1_0000_0000) as nat)
}

/// Formats an optional log position.
pub fn format_optional_lsn(lsn: Option<PgLsn>) -> (r: String)
    ensures
        r@ == (match lsn {
            None => "none"@,
            Some(lsn) => lsn_text(lsn),
        }),
{
    match lsn {
        None => "none".to_owned(),
        Some(lsn) => {
            let mut text = String::new();
            push_upper_hex(&mut text, lsn.0 / 0x1_0000_0000);
            assert(text@ =~= upper_hex((lsn.0 / 0x1_0000_0000) as nat));
            text.append("/");
            push_upper_hex(&mut text, lsn.0 % 0x1_0000_0000);
            text
        },
    }
}

/// The SQL literal of an optional log position.
pub open spec fn lsn_literal(lsn: Option<PgLsn>) -> Seq<char> {
    match lsn {
        None => "NULL"@,
        Some(lsn) => decimal(lsn.0 as nat),
    }
}

/// Renders an optional log position as a SQL literal.
pub fn optional_lsn_to_sql_literal(lsn: Option<PgLsn>) -> (r: String)
    ensures
        r@ == lsn_literal(lsn),
{
    match lsn {
        None => "NULL".to_owned(),
        Some(lsn) => decimal_u64(lsn.0),
    }
}

/// The uppercase numeral of a number reads back as that number, without leading
/// zeros.
pub proof fn law_upper_hex_reads_back(value: nat)
    ensures
        hex_number(upper_hex(value)) == Some(value),
        upper_hex(value).len() > 0,
        !upper_hex(value).contains('/'),
        value > 0 ==> upper_hex(value)[0] != '0',
    decreases value,
{
    let text = upper_hex(value);
    if value < 16 {
        assert(text.drop_last() =~= Seq::empty());
        assert(hex_number(text.drop_last()) == Some(0nat));
    } else {
        law_upper_hex_reads_back(value / 16);
        let lead = upper_hex(value / 16);
        assert(text.drop_last() =~= lead);
        assert(text[0] == lead[0]);
        assert forall|i: int| 0 <= i < text.len() implies text[i] != '/' by {
            if i < lead.len() {
                assert(text[i] == lead[i]);
            }
        }
    }
}

/// The text of a log position reads back as that position: its two halves stand
/// before and behind the only slash.
pub proof fn law_lsn_text_reads_back(lsn: PgLsn)
    ensures
        exists|slash: int|
            0 < slash < lsn_text(lsn).len() - 1 && #[trigger] lsn_text(lsn)[slash] == '/' && {
                let high = hex_number(lsn_text(lsn).take(slash));
                let low = hex_number(lsn_text(lsn).skip(slash + 1));
                &&& high is Some && low is Some
                &&& high->0 * 0x1_0000_0000 + low->0 == lsn.0
                &&& low->0 < 0x1_0000_0000
            },
{
    let high = upper_hex((lsn.0 / 0x1_0000_0000) as nat);
    let low = upper_hex((lsn.0 % 0x1_0000_0000) as nat);
    law_upper_hex_reads_back((lsn.0 / 0x1_0000_0000) as nat);
    law_upper_hex_reads_back((lsn.0 % 0x1_0000_0000) as nat);
    reveal_strlit("/");
    let text = lsn_text(lsn);
    let slash = high.len() as int;
    assert(text[slash] == '/');
    assert(text.take(slash) =~= high);
    assert(text.skip(slash + 1) =~= low);
}

/// The text of a sequence key reads back as its commit position and its ordinal,
/// at fixed places, so distinct keys have distinct texts.
pub proof fn law_key_text_reads_back(key: EventSequenceKey)
    ensures
        sequence_key_text(key).len() == 33,
        hex_number(sequence_key_text(key).take(16)) == Some(key.commit_lsn.0 as nat),
        sequence_key_text(key)[16] == '/',
        hex_number(sequence_key_text(key).skip(17)) == Some(key.tx_ordinal as nat),
{
    reveal_strlit("/");
    law_hex_reads_back(key.commit_lsn.0 as nat, 16);
    law_hex_reads_back(key.tx_ordinal as nat, 16);
    assert(hex_span(16) == 0x1_0000_0000_0000_0000) by {
        reveal_with_fuel(hex_span, 17);
    }
    let text = sequence_key_text(key);
    assert(text.take(16) =~= hex(key.commit_lsn.0 as nat, 16));
    assert(text.skip(17) =~= hex(key.tx_ordinal as nat, 16));
}

/// The literal of a log position reads back as that position, and that of none as
/// an absent value.
pub proof fn law_lsn_literal_reads_back(lsn: Option<PgLsn>)
    ensures
        meaning(lsn_literal(lsn)) == Some(
            match lsn {
                None => Meaning::Null,
                Some(lsn) => Meaning::Number(lsn.0 as int),
            },
        ),
{
    match lsn {
        None => {},
        Some(lsn) => {
            law_number_literal_reads_back(lsn.0 as int);
            assert(decimal_int(lsn.0 as int) == decimal(lsn.0 as nat));
        },
    }
}

} // verus!
