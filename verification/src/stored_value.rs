//! Values read back from the lake, and the cells they stand for.

use vstd::prelude::*;

use crate::data::{element_views, Cell, CellView, Scalar, ScalarView, TextKind};
use crate::error::{detailed_error, ErrorKind, ErrorView, EtlError};
use crate::external::{
    calendar_date, clock_text, compact_json, date_of_day, date_text, hex_digit, hex_number, hyphenated_digits, parse_json,
    parse_uuid, time_of_second, time_text, utc_of_second, utc_text, uuid_of,
};
use crate::literal::uuid_text;
use crate::reading::{
    identifier, inside, law_identifier_reads_back, lemma_inside, scalar_meaning, Meaning,
};
use crate::schema::{lake_column, ColumnSchema, ColumnType, ColumnView, TypeKind};
use crate::text::{
    digit_char, hex, hex_span, lemma_hex_length, lemma_hex_span_positive, lowered,
};

verus! {

/// Unit of a stored time or timestamp.
#[derive(Clone, Copy, Debug, PartialEq, Eq, Structural)]
pub enum TimeUnit {
    Second,
    Millisecond,
    Microsecond,
    Nanosecond,
}

/// One stored value that is not a list.
///
/// A floating-point value is held as its text in single and in double precision.
/// A text is held with what the source codec reads from it as a number and as a
/// time with a zone, where it reads anything.
#[derive(Debug, PartialEq)]
pub enum StoredScalar {
    Null,
    Boolean(bool),
    TinyInt(i8),
    SmallInt(i16),
    Int(i32),
    BigInt(i64),
    HugeInt(i128),
    UTinyInt(u8),
    USmallInt(u16),
    UInt(u32),
    UBigInt(u64),
    Float { single: String, double: String },
    Double { single: String, double: String },
    Text { text: String, numeric: Option<String>, time_tz: Option<String> },
    Enum { text: String, numeric: Option<String>, time_tz: Option<String> },
    Blob(Vec<u8>),
    Date32(i32),
    Time64(TimeUnit, i64),
    Timestamp(TimeUnit, i64),
    /// A value of another shape.
    Other,
}

/// One stored value.
#[derive(Debug, PartialEq)]
pub enum StoredValue {
    Scalar(StoredScalar),
    List(Vec<StoredScalar>),
    Array(Vec<StoredScalar>),
}

/// Contents of a [`StoredScalar`]. Integers of every width are one kind, and so
/// are texts and enums, and both precisions.
pub enum StoredScalarView {
    Null,
    Boolean(bool),
    Integer(int),
    Float { single: Seq<char>, double: Seq<char> },
    Text { text: Seq<char>, numeric: Option<Seq<char>>, time_tz: Option<Seq<char>> },
    Blob(Seq<u8>),
    Date(int),
    Time(TimeUnit, int),
    Timestamp(TimeUnit, int),
    Other,
}

/// Contents of a [`StoredValue`].
pub enum StoredView {
    Scalar(StoredScalarView),
    List(Seq<StoredScalarView>),
}

/// Contents of a stored text.
pub open spec fn text_view(text: String, numeric: Option<String>, time_tz: Option<String>) -> StoredScalarView {
    StoredScalarView::Text {
        text: text@,
        numeric: match numeric {
            None => None,
            Some(image) => Some(image@),
        },
        time_tz: match time_tz {
            None => None,
            Some(image) => Some(image@),
        },
    }
}

impl View for StoredScalar {
    type V = StoredScalarView;

    open spec fn view(&self) -> StoredScalarView {
        match *self {
            StoredScalar::Null => StoredScalarView::Null,
            StoredScalar::Boolean(value) => StoredScalarView::Boolean(value),
            StoredScalar::TinyInt(value) => StoredScalarView::Integer(value as int),
            StoredScalar::SmallInt(value) => StoredScalarView::Integer(value as int),
            StoredScalar::Int(value) => StoredScalarView::Integer(value as int),
            StoredScalar::BigInt(value) => StoredScalarView::Integer(value as int),
            StoredScalar::HugeInt(value) => StoredScalarView::Integer(value as int),
            StoredScalar::UTinyInt(value) => StoredScalarView::Integer(value as int),
            StoredScalar::USmallInt(value) => StoredScalarView::Integer(value as int),
            StoredScalar::UInt(value) => StoredScalarView::Integer(value as int),
            StoredScalar::UBigInt(value) => StoredScalarView::Integer(value as int),
            StoredScalar::Float { single, double } => StoredScalarView::Float {
                single: single@,
                double: double@,
            },
            StoredScalar::Double { single, double } => StoredScalarView::Float {
                single: single@,
                double: double@,
            },
            StoredScalar::Text { text, numeric, time_tz } => text_view(text, numeric, time_tz),
            StoredScalar::Enum { text, numeric, time_tz } => text_view(text, numeric, time_tz),
            StoredScalar::Blob(bytes) => StoredScalarView::Blob(bytes@),
            StoredScalar::Date32(day) => StoredScalarView::Date(day as int),
            StoredScalar::Time64(unit, amount) => StoredScalarView::Time(unit, amount as int),
            StoredScalar::Timestamp(unit, amount) => StoredScalarView::Timestamp(
                unit,
                amount as int,
            ),
            StoredScalar::Other => StoredScalarView::Other,
        }
    }
}

/// Contents of a list of stored values.
pub open spec fn stored_views(values: Seq<StoredScalar>) -> Seq<StoredScalarView> {
    values.map_values(|v: StoredScalar| v@)
}

impl View for StoredValue {
    type V = StoredView;

    open spec fn view(&self) -> StoredView {
        match *self {
            StoredValue::Scalar(value) => StoredView::Scalar(value@),
            StoredValue::List(values) => StoredView::List(stored_views(values@)),
            StoredValue::Array(values) => StoredView::List(stored_views(values@)),
        }
    }
}

/// The error of a stored value whose shape its column cannot hold.
pub open spec fn unexpected_value(type_label: Seq<char>) -> ErrorView {
    detailed_error(
        ErrorKind::ConversionError,
        "DuckLake recovered value does not match its column type"@,
        "Column type "@ + type_label + " cannot be read back from its stored value"@,
    )
}

/// Builds the error of a stored value whose shape its column cannot hold.
pub fn unexpected_value_error(column_type: &ColumnType) -> (r: EtlError)
    ensures
        r@ == unexpected_value(column_type.name@),
{
    let mut detail = "Column type ".to_owned();
    detail.append(column_type.name.as_str());
    detail.append(" cannot be read back from its stored value");
    EtlError::with_detail(
        ErrorKind::ConversionError,
        "DuckLake recovered value does not match its column type",
        detail,
    )
}

/// Whether a column is read back through its text: its lake type has no lossless
/// value of its own.
pub open spec fn read_as_text(kind: TypeKind) -> bool {
    kind is Numeric || kind is Uuid || kind is Json || kind is Jsonb || kind is TimeTz
        || kind is Other
}

/// Returns whether a column is read back through its text.
pub fn reads_as_text(column_type: &ColumnType) -> (r: bool)
    ensures
        r == read_as_text(column_type.kind),
{
    match column_type.kind {
        TypeKind::Numeric | TypeKind::Uuid | TypeKind::Json | TypeKind::Jsonb => true,
        _ => !has_dedicated_ducklake_type(column_type),
    }
}

/// Whether a Postgres type keeps a lake column type of its own. The others are
/// stored as text.
pub open spec fn dedicated_type(kind: TypeKind, is_array: bool) -> bool {
    !(kind is TimeTz) && !(kind is Other) && !(kind is Numeric && is_array)
}

/// Returns whether a Postgres type keeps a lake column type of its own.
pub fn has_dedicated_ducklake_type(column_type: &ColumnType) -> (r: bool)
    ensures
        r == dedicated_type(column_type.kind, column_type.is_array),
{
    match column_type.kind {
        TypeKind::TimeTz | TypeKind::Other => false,
        TypeKind::Numeric => !column_type.is_array,
        _ => true,
    }
}

/// The expression that reads one column back.
pub open spec fn read_expression_of(column: ColumnView) -> Seq<char> {
    let reference = "cdc_target."@ + lake_column(column);
    if !read_as_text(column.kind) {
        reference
    } else if column.is_array {
        "CAST("@ + reference + " AS VARCHAR[])"@
    } else {
        "CAST("@ + reference + " AS VARCHAR)"@
    }
}

/// Returns the expression that reads one column back.
pub fn read_expression(column: &ColumnSchema) -> (r: String)
    ensures
        r@ == read_expression_of(column@),
{
    let mut reference = "cdc_target.".to_owned();
    reference.append(column.lake_name().as_str());
    if !reads_as_text(&column.column_type) {
        return reference;
    }
    let mut expression = "CAST(".to_owned();
    expression.append(reference.as_str());
    if column.column_type.is_array {
        expression.append(" AS VARCHAR[])");
    } else {
        expression.append(" AS VARCHAR)");
    }
    expression
}

/// How many nanoseconds one unit holds.
pub open spec fn unit_nanos(unit: TimeUnit) -> int {
    match unit {
        TimeUnit::Second => 1_000_000_000,
        TimeUnit::Millisecond => 1_000_000,
        TimeUnit::Microsecond => 1_000,
        TimeUnit::Nanosecond => 1,
    }
}

/// Converts an amount of a time unit to nanoseconds. Every amount can be
/// converted.
pub fn unit_to_nanos(unit: TimeUnit, amount: i64) -> (r: Option<i128>)
    ensures
        r matches Some(nanos) && nanos == amount * unit_nanos(unit),
{
    let factor: i128 = match unit {
        TimeUnit::Second => 1_000_000_000,
        TimeUnit::Millisecond => 1_000_000,
        TimeUnit::Microsecond => 1_000,
        TimeUnit::Nanosecond => 1,
    };
    (amount as i128).checked_mul(factor)
}

/// The integer a stored value holds, if it is within the bounds.
pub open spec fn bounded_integer(value: StoredScalarView, least: int, most: int) -> Option<int> {
    match value {
        StoredScalarView::Integer(value) => if least <= value <= most {
            Some(value)
        } else {
            None
        },
        _ => None,
    }
}

fn wide_integer(value: &StoredScalar) -> (r: Option<i128>)
    ensures
        match r {
            None => !(value@ is Integer),
            Some(wide) => value@ == StoredScalarView::Integer(wide as int),
        },
{
    match value {
        StoredScalar::TinyInt(value) => Some(*value as i128),
        StoredScalar::SmallInt(value) => Some(*value as i128),
        StoredScalar::Int(value) => Some(*value as i128),
        StoredScalar::BigInt(value) => Some(*value as i128),
        StoredScalar::HugeInt(value) => Some(*value),
        StoredScalar::UTinyInt(value) => Some(*value as i128),
        StoredScalar::USmallInt(value) => Some(*value as i128),
        StoredScalar::UInt(value) => Some(*value as i128),
        StoredScalar::UBigInt(value) => Some(*value as i128),
        _ => None,
    }
}

/// Returns the integer a stored value of any width holds, if it is within the
/// bounds.
pub fn value_to_integer(value: &StoredScalar, least: i64, most: i64) -> (r: Option<i64>)
    ensures
        match r {
            None => bounded_integer(value@, least as int, most as int) is None,
            Some(number) => bounded_integer(value@, least as int, most as int) == Some(
                number as int,
            ),
        },
{
    match wide_integer(value) {
        None => None,
        Some(wide) => if least as i128 <= wide && wide <= most as i128 {
            Some(wide as i64)
        } else {
            None
        },
    }
}

/// The text a stored value holds.
pub open spec fn stored_text(value: StoredScalarView) -> Option<Seq<char>> {
    match value {
        StoredScalarView::Text { text, .. } => Some(text),
        _ => None,
    }
}

/// Returns the text a stored text or enum holds.
pub fn value_to_text(value: &StoredScalar) -> (r: Option<&String>)
    ensures
        match r {
            None => stored_text(value@) is None,
            Some(text) => stored_text(value@) == Some(text@),
        },
{
    match value {
        StoredScalar::Text { text, .. } => Some(text),
        StoredScalar::Enum { text, .. } => Some(text),
        _ => None,
    }
}

/// A text as a scalar of a kind.
pub open spec fn text_scalar(kind: TextKind, text: Option<Seq<char>>) -> Option<ScalarView> {
    match text {
        None => None,
        Some(text) => Some(ScalarView::Text(kind, text)),
    }
}

fn to_text_scalar(kind: TextKind, text: Option<String>) -> (r: Option<Scalar>)
    ensures
        optional_scalar(r) == text_scalar(
            kind,
            match text {
                None => None,
                Some(text) => Some(text@),
            },
        ),
{
    match text {
        None => None,
        Some(text) => Some(Scalar::Text(kind, text)),
    }
}

fn copy_text(text: &Option<String>) -> (r: Option<String>)
    ensures
        match r {
            None => text is None,
            Some(copy) => text matches Some(text) && copy@ == text@,
        },
{
    match text {
        None => None,
        Some(text) => Some(text.clone()),
    }
}

/// Contents of an optional scalar.
pub open spec fn optional_scalar(scalar: Option<Scalar>) -> Option<ScalarView> {
    match scalar {
        None => None,
        Some(scalar) => Some(scalar@),
    }
}

/// The time of day that nanoseconds since midnight stand for.
pub open spec fn time_of_nanos(nanos: int) -> Option<Seq<char>> {
    if nanos < 0 {
        None
    } else {
        time_text((nanos / 1_000_000_000) as nat, (nanos % 1_000_000_000) as nat)
    }
}

/// The UTC moment that nanoseconds since 1970-01-01 stand for.
pub open spec fn moment_of_nanos(nanos: int) -> Option<Seq<char>> {
    utc_text(nanos / 1_000_000_000, (nanos % 1_000_000_000) as nat)
}

/// Returns the time of day that a stored time stands for.
pub fn value_to_time(unit: TimeUnit, amount: i64) -> (r: Option<String>)
    ensures
        match r {
            None => time_of_nanos(amount * unit_nanos(unit)) is None,
            Some(text) => time_of_nanos(amount * unit_nanos(unit)) == Some(text@),
        },
{
    let nanos: i128 = match unit_to_nanos(unit, amount) {
        None => return None,
        Some(nanos) => nanos,
    };
    let seconds: i128 = match nanos.checked_div_euclid(1_000_000_000) {
        None => return None,
        Some(seconds) => seconds,
    };
    let rest: i128 = match nanos.checked_rem_euclid(1_000_000_000) {
        None => return None,
        Some(rest) => rest,
    };
    if seconds < 0 || seconds > u32::MAX as i128 {
        return None;
    }
    time_of_second(seconds as u32, rest as u32)
}

/// Returns the UTC moment that a stored timestamp stands for.
pub fn value_to_timestamp(unit: TimeUnit, amount: i64) -> (r: Option<String>)
    ensures
        match r {
            None => moment_of_nanos(amount * unit_nanos(unit)) is None,
            Some(text) => moment_of_nanos(amount * unit_nanos(unit)) == Some(text@),
        },
{
    let nanos: i128 = match unit_to_nanos(unit, amount) {
        None => return None,
        Some(nanos) => nanos,
    };
    let seconds: i128 = match nanos.checked_div_euclid(1_000_000_000) {
        None => return None,
        Some(seconds) => seconds,
    };
    let rest: i128 = match nanos.checked_rem_euclid(1_000_000_000) {
        None => return None,
        Some(rest) => rest,
    };
    if seconds < i64::MIN as i128 || seconds > i64::MAX as i128 {
        return None;
    }
    utc_of_second(seconds as i64, rest as u32)
}

/// The UTC moment with its zone.
pub open spec fn zoned(moment: Option<Seq<char>>) -> Option<Seq<char>> {
    match moment {
        None => None,
        Some(moment) => Some(moment + "+00"@),
    }
}

/// The scalar that a stored value, other than an absent one, stands for in a
/// column of a kind.
pub open spec fn stored_scalar(kind: TypeKind, value: StoredScalarView) -> Option<ScalarView> {
    match kind {
        TypeKind::Bool => match value {
            StoredScalarView::Boolean(value) => Some(ScalarView::Bool(value)),
            _ => None,
        },
        TypeKind::Int2 => match bounded_integer(value, i16::MIN as int, i16::MAX as int) {
            Some(number) => Some(ScalarView::I16(number as i16)),
            None => None,
        },
        TypeKind::Int4 => match bounded_integer(value, i32::MIN as int, i32::MAX as int) {
            Some(number) => Some(ScalarView::I32(number as i32)),
            None => None,
        },
        TypeKind::Int8 => match bounded_integer(value, i64::MIN as int, i64::MAX as int) {
            Some(number) => Some(ScalarView::I64(number as i64)),
            None => None,
        },
        TypeKind::Oid => match bounded_integer(value, 0, u32::MAX as int) {
            Some(number) => Some(ScalarView::U32(number as u32)),
            None => None,
        },
        TypeKind::Float4 => match value {
            StoredScalarView::Float { single, .. } => Some(
                ScalarView::Text(TextKind::Float4, single),
            ),
            _ => None,
        },
        TypeKind::Float8 => match value {
            StoredScalarView::Float { double, .. } => Some(
                ScalarView::Text(TextKind::Float8, double),
            ),
            _ => None,
        },
        TypeKind::Numeric => match value {
            StoredScalarView::Text { numeric, .. } => text_scalar(TextKind::Numeric, numeric),
            _ => None,
        },
        TypeKind::Date => match value {
            StoredScalarView::Date(day) => text_scalar(TextKind::Date, date_text(day)),
            _ => None,
        },
        TypeKind::Time => match value {
            StoredScalarView::Time(unit, amount) => text_scalar(
                TextKind::Time,
                time_of_nanos(amount * unit_nanos(unit)),
            ),
            _ => None,
        },
        TypeKind::TimeTz => match value {
            StoredScalarView::Text { time_tz, .. } => text_scalar(TextKind::TimeTz, time_tz),
            _ => None,
        },
        TypeKind::Timestamp => match value {
            StoredScalarView::Timestamp(unit, amount) => text_scalar(
                TextKind::Timestamp,
                moment_of_nanos(amount * unit_nanos(unit)),
            ),
            _ => None,
        },
        TypeKind::TimestampTz => match value {
            StoredScalarView::Timestamp(unit, amount) => text_scalar(
                TextKind::TimestampTz,
                zoned(moment_of_nanos(amount * unit_nanos(unit))),
            ),
            _ => None,
        },
        TypeKind::Uuid => match stored_text(value) {
            None => None,
            Some(text) => match uuid_of(text) {
                None => None,
                Some(uuid) => Some(ScalarView::Uuid(uuid as u128)),
            },
        },
        TypeKind::Json | TypeKind::Jsonb => match stored_text(value) {
            None => None,
            Some(text) => text_scalar(TextKind::Json, compact_json(text)),
        },
        TypeKind::Bytea => match value {
            StoredScalarView::Blob(bytes) => Some(ScalarView::Bytes(bytes)),
            _ => None,
        },
        TypeKind::Other => text_scalar(TextKind::Plain, stored_text(value)),
    }
}

fn copy_bytes(bytes: &Vec<u8>) -> (r: Vec<u8>)
    ensures
        r@ == bytes@,
{
    let mut copy: Vec<u8> = Vec::new();
    for i in 0..bytes.len()
        invariant
            copy@ == bytes@.take(i as int),
    {
        copy.push(bytes[i]);
        assert(copy@ =~= bytes@.take(i + 1));
    }
    assert(bytes@.take(bytes@.len() as int) =~= bytes@);
    copy
}

fn timestamp_scalar(value: &StoredScalar, kind: TextKind) -> (r: Option<Scalar>)
    ensures
        optional_scalar(r) == match value@ {
            StoredScalarView::Timestamp(unit, amount) => text_scalar(
                kind,
                if kind is TimestampTz {
                    zoned(moment_of_nanos(amount * unit_nanos(unit)))
                } else {
                    moment_of_nanos(amount * unit_nanos(unit))
                },
            ),
            _ => None,
        },
{
    match value {
        StoredScalar::Timestamp(unit, amount) => match value_to_timestamp(*unit, *amount) {
            None => None,
            Some(moment) => {
                let mut text = moment;
                match kind {
                    TextKind::TimestampTz => text.append("+00"),
                    _ => {},
                }
                Some(Scalar::Text(kind, text))
            },
        },
        _ => None,
    }
}

/// Converts a stored value, other than an absent one, to the scalar of a column
/// of a kind.
pub fn value_to_scalar(kind: TypeKind, value: &StoredScalar) -> (r: Option<Scalar>)
    ensures
        optional_scalar(r) == stored_scalar(kind, value@),
{
    match kind {
        TypeKind::Bool => match value {
            StoredScalar::Boolean(value) => Some(Scalar::Bool(*value)),
            _ => None,
        },
        TypeKind::Int2 => match value_to_integer(value, i16::MIN as i64, i16::MAX as i64) {
            Some(number) => Some(Scalar::I16(number as i16)),
            None => None,
        },
        TypeKind::Int4 => match value_to_integer(value, i32::MIN as i64, i32::MAX as i64) {
            Some(number) => Some(Scalar::I32(number as i32)),
            None => None,
        },
        TypeKind::Int8 => match value_to_integer(value, i64::MIN, i64::MAX) {
            Some(number) => Some(Scalar::I64(number)),
            None => None,
        },
        TypeKind::Oid => match value_to_integer(value, 0, u32::MAX as i64) {
            Some(number) => Some(Scalar::U32(number as u32)),
            None => None,
        },
        TypeKind::Float4 => match value {
            StoredScalar::Float { single, .. } => Some(
                Scalar::Text(TextKind::Float4, single.clone()),
            ),
            StoredScalar::Double { single, .. } => Some(
                Scalar::Text(TextKind::Float4, single.clone()),
            ),
            _ => None,
        },
        TypeKind::Float8 => match value {
            StoredScalar::Float { double, .. } => Some(
                Scalar::Text(TextKind::Float8, double.clone()),
            ),
            StoredScalar::Double { double, .. } => Some(
                Scalar::Text(TextKind::Float8, double.clone()),
            ),
            _ => None,
        },
        TypeKind::Numeric => match value {
            StoredScalar::Text { numeric, .. } => to_text_scalar(
                TextKind::Numeric,
                copy_text(numeric),
            ),
            StoredScalar::Enum { numeric, .. } => to_text_scalar(
                TextKind::Numeric,
                copy_text(numeric),
            ),
            _ => None,
        },
        TypeKind::Date => match value {
            StoredScalar::Date32(day) => to_text_scalar(TextKind::Date, date_of_day(*day)),
            _ => None,
        },
        TypeKind::Time => match value {
            StoredScalar::Time64(unit, amount) => to_text_scalar(
                TextKind::Time,
                value_to_time(*unit, *amount),
            ),
            _ => None,
        },
        TypeKind::TimeTz => match value {
            StoredScalar::Text { time_tz, .. } => to_text_scalar(
                TextKind::TimeTz,
                copy_text(time_tz),
            ),
            StoredScalar::Enum { time_tz, .. } => to_text_scalar(
                TextKind::TimeTz,
                copy_text(time_tz),
            ),
            _ => None,
        },
        TypeKind::Timestamp => timestamp_scalar(value, TextKind::Timestamp),
        TypeKind::TimestampTz => timestamp_scalar(value, TextKind::TimestampTz),
        TypeKind::Uuid => match value_to_text(value) {
            None => None,
            Some(text) => match parse_uuid(text.as_str()) {
                None => None,
                Some(uuid) => Some(Scalar::Uuid(uuid)),
            },
        },
        TypeKind::Json | TypeKind::Jsonb => match value_to_text(value) {
            None => None,
            Some(text) => to_text_scalar(TextKind::Json, parse_json(text.as_str())),
        },
        TypeKind::Bytea => match value {
            StoredScalar::Blob(bytes) => Some(Scalar::Bytes(copy_bytes(bytes))),
            _ => None,
        },
        TypeKind::Other => match value_to_text(value) {
            None => None,
            Some(text) => Some(Scalar::Text(TextKind::Plain, text.clone())),
        },
    }
}

/// The array elements that stored values stand for: an absent value is an
/// absent element, and one value that does not fit spoils the array.
pub open spec fn stored_elements(kind: TypeKind, values: Seq<StoredScalarView>) -> Option<
    Seq<Option<ScalarView>>,
>
    decreases values.len(),
{
    if values.len() == 0 {
        Some(Seq::empty())
    } else {
        match stored_elements(kind, values.drop_last()) {
            None => None,
            Some(earlier) => match values.last() {
                StoredScalarView::Null => Some(earlier.push(None)),
                value => match stored_scalar(kind, value) {
                    None => None,
                    Some(scalar) => Some(earlier.push(Some(scalar))),
                },
            },
        }
    }
}

proof fn lemma_spoiled_elements(kind: TypeKind, values: Seq<StoredScalarView>, count: int)
    requires
        0 <= count <= values.len(),
        stored_elements(kind, values.take(count)) is None,
    ensures
        stored_elements(kind, values) is None,
    decreases values.len(),
{
    if count == values.len() {
        assert(values.take(count) =~= values);
    } else {
        assert(values.drop_last().take(count) =~= values.take(count));
        lemma_spoiled_elements(kind, values.drop_last(), count);
    }
}

/// Converts stored values to the elements of an array column.
pub fn array_values_to_elements(kind: TypeKind, values: &Vec<StoredScalar>) -> (r: Option<
    Vec<Option<Scalar>>,
>)
    ensures
        match r {
            None => stored_elements(kind, stored_views(values@)) is None,
            Some(elements) => stored_elements(kind, stored_views(values@)) == Some(
                element_views(elements@),
            ),
        },
{
    let ghost all = stored_views(values@);
    let mut elements: Vec<Option<Scalar>> = Vec::new();
    proof {
        assert(all.take(0) =~= Seq::empty());
        assert(element_views(elements@) =~= Seq::empty());
    }
    for i in 0..values.len()
        invariant
            all == stored_views(values@),
            elements@.len() == i,
            stored_elements(kind, all.take(i as int)) == Some(element_views(elements@)),
    {
        let ghost before = element_views(elements@);
        let ghost upto = all.take(i + 1);
        proof {
            assert(upto.drop_last() =~= all.take(i as int));
            assert(upto.last() == values@[i as int]@);
        }
        let absent = match &values[i] {
            StoredScalar::Null => true,
            _ => false,
        };
        if absent {
            elements.push(None);
        } else {
            match value_to_scalar(kind, &values[i]) {
                None => {
                    proof {
                        lemma_spoiled_elements(kind, all, i + 1);
                    }
                    return None;
                },
                Some(scalar) => elements.push(Some(scalar)),
            }
        }
        assert(element_views(elements@) =~= before.push(
            element_views(elements@)[i as int],
        ));
    }
    assert(all.take(all.len() as int) =~= all);
    Some(elements)
}

/// The cell that a stored value stands for in a column.
pub open spec fn stored_cell(
    kind: TypeKind,
    is_array: bool,
    type_label: Seq<char>,
    value: StoredView,
) -> Result<CellView, ErrorView> {
    match value {
        StoredView::Scalar(StoredScalarView::Null) => Ok(CellView::Null),
        StoredView::Scalar(value) => if is_array {
            Err(unexpected_value(type_label))
        } else {
            match stored_scalar(kind, value) {
                None => Err(unexpected_value(type_label)),
                Some(scalar) => Ok(CellView::Value(scalar)),
            }
        },
        StoredView::List(values) => if !is_array {
            Err(unexpected_value(type_label))
        } else {
            match stored_elements(kind, values) {
                None => Err(unexpected_value(type_label)),
                Some(elements) => Ok(CellView::Array(elements)),
            }
        },
    }
}

fn list_to_cell(column_type: &ColumnType, values: &Vec<StoredScalar>) -> (r: Result<Cell, EtlError>)
    ensures
        match r {
            Ok(cell) => stored_cell(
                column_type.kind,
                column_type.is_array,
                column_type.name@,
                StoredView::List(stored_views(values@)),
            ) == Ok::<CellView, ErrorView>(cell@),
            Err(error) => stored_cell(
                column_type.kind,
                column_type.is_array,
                column_type.name@,
                StoredView::List(stored_views(values@)),
            ) == Err::<CellView, ErrorView>(error@),
        },
{
    if !column_type.is_array {
        return Err(unexpected_value_error(column_type));
    }
    match array_values_to_elements(column_type.kind, values) {
        None => Err(unexpected_value_error(column_type)),
        Some(elements) => Ok(Cell::Array(elements)),
    }
}

/// Converts one stored value to the cell of its column.
pub fn value_to_cell(column_type: &ColumnType, value: &StoredValue) -> (r: Result<Cell, EtlError>)
    ensures
        match r {
            Ok(cell) => stored_cell(
                column_type.kind,
                column_type.is_array,
                column_type.name@,
                value@,
            ) == Ok::<CellView, ErrorView>(cell@),
            Err(error) => stored_cell(
                column_type.kind,
                column_type.is_array,
                column_type.name@,
                value@,
            ) == Err::<CellView, ErrorView>(error@),
        },
{
    match value {
        StoredValue::Scalar(StoredScalar::Null) => Ok(Cell::Null),
        StoredValue::Scalar(value) => {
            if column_type.is_array {
                return Err(unexpected_value_error(column_type));
            }
            match value_to_scalar(column_type.kind, value) {
                None => Err(unexpected_value_error(column_type)),
                Some(scalar) => Ok(Cell::Value(scalar)),
            }
        },
        StoredValue::List(values) => list_to_cell(column_type, values),
        StoredValue::Array(values) => list_to_cell(column_type, values),
    }
}

/// Digits read back as the number they were written from.
proof fn lemma_hex_reads_back(value: nat, width: nat)
    ensures
        hex_number(hex(value, width)) == Some((value % hex_span(width)) as nat),
    decreases width,
{
    if width > 0 {
        let shorter = (width - 1) as nat;
        lemma_hex_reads_back(value / 16, shorter);
        lemma_hex_span_positive(shorter);
        vstd::arithmetic::div_mod::lemma_mod_breakdown(
            value as int,
            16,
            hex_span(shorter) as int,
        );
        let digits = hex(value, width);
        assert(digits.drop_last() =~= hex(value / 16, shorter));
        assert(digits.last() == digit_char(value % 16));
        assert(hex_digit(digit_char(value % 16)) == Some(value % 16));
    } else {
        assert(value % 1 == 0);
    }
}

/// The digits of a number are those of its high part and of its low part.
proof fn lemma_hex_split(value: nat, high: nat, low: nat)
    ensures
        hex(value, high + low) == hex(value / hex_span(low), high) + hex(value, low),
    decreases low,
{
    if low > 0 {
        let shorter = (low - 1) as nat;
        lemma_hex_split(value / 16, high, shorter);
        lemma_hex_span_positive(shorter);
        vstd::arithmetic::div_mod::lemma_div_denominator(
            value as int,
            16,
            hex_span(shorter) as int,
        );
        assert(high + low - 1 == high + shorter);
        assert(hex(value, high + low) =~= hex(value / hex_span(low), high) + hex(value, low));
    } else {
        assert(value / 1 == value);
        assert(hex(value, high + low) =~= hex(value / hex_span(low), high) + hex(value, low));
    }
}

proof fn lemma_hex_spans()
    ensures
        hex_span(12) == 0x1000000000000,
        hex_span(16) == 0x10000000000000000,
        hex_span(20) == 0x100000000000000000000,
        hex_span(24) == 0x1000000000000000000000000,
        hex_span(32) == 0x100000000000000000000000000000000,
{
    reveal_with_fuel(hex_span, 33);
}

/// A UUID reads back from the text it is written as.
pub proof fn law_uuid_reads_back(value: u128)
    ensures
        uuid_of(uuid_text(value)) == Some(value as nat),
{
    let v = value as nat;
    let a = hex(v / hex_span(24), 8);
    let b = hex(v / hex_span(20), 4);
    let c = hex(v / hex_span(16), 4);
    let d = hex(v / hex_span(12), 4);
    let e = hex(v, 12);
    lemma_hex_spans();
    reveal_strlit("-");
    lemma_hex_length(v / hex_span(24), 8);
    lemma_hex_length(v / hex_span(20), 4);
    lemma_hex_length(v / hex_span(16), 4);
    lemma_hex_length(v / hex_span(12), 4);
    lemma_hex_length(v, 12);
    let text = uuid_text(value);
    assert(text =~= a + seq!['-'] + b + seq!['-'] + c + seq!['-'] + d + seq!['-'] + e);
    assert(text.len() == 36);
    assert(text.take(8) =~= a);
    assert(text.subrange(9, 13) =~= b);
    assert(text.subrange(14, 18) =~= c);
    assert(text.subrange(19, 23) =~= d);
    assert(text.skip(24) =~= e);
    assert(hyphenated_digits(text) == Some(a + b + c + d + e));
    lemma_hex_split(v, 8, 24);
    lemma_hex_split(v, 12, 20);
    lemma_hex_split(v, 16, 16);
    lemma_hex_split(v, 20, 12);
    lemma_hex_split(v / hex_span(20), 8, 4);
    lemma_hex_split(v / hex_span(16), 12, 4);
    lemma_hex_split(v / hex_span(12), 16, 4);
    assert(hex_span(4) == 0x10000) by {
        reveal_with_fuel(hex_span, 5);
    }
    vstd::arithmetic::div_mod::lemma_div_denominator(v as int, hex_span(20) as int, 0x10000);
    vstd::arithmetic::div_mod::lemma_div_denominator(v as int, hex_span(16) as int, 0x10000);
    vstd::arithmetic::div_mod::lemma_div_denominator(v as int, hex_span(12) as int, 0x10000);
    assert(hex(v, 32) =~= a + b + c + d + e);
    lemma_hex_reads_back(v, 32);
    assert(v % hex_span(32) == v) by {
        vstd::arithmetic::div_mod::lemma_small_mod(v, hex_span(32));
    }
}

/// Stored values read back as the cells they were written from: an absent value
/// in every column, truth values, integers within their column's width, bytes,
/// texts and UUIDs.
pub proof fn law_stored_values_read_back(
    kind: TypeKind,
    is_array: bool,
    type_label: Seq<char>,
    flag: bool,
    small: i16,
    medium: i32,
    large: i64,
    object: u32,
    bytes: Seq<u8>,
    uuid: u128,
    text: Seq<char>,
    numeric: Option<Seq<char>>,
    time_tz: Option<Seq<char>>,
)
    ensures
        stored_cell(kind, is_array, type_label, StoredView::Scalar(StoredScalarView::Null)) == Ok::<
            CellView,
            ErrorView,
        >(CellView::Null),
        stored_scalar(TypeKind::Bool, StoredScalarView::Boolean(flag)) == Some(
            ScalarView::Bool(flag),
        ),
        stored_scalar(TypeKind::Int2, StoredScalarView::Integer(small as int)) == Some(
            ScalarView::I16(small),
        ),
        stored_scalar(TypeKind::Int4, StoredScalarView::Integer(medium as int)) == Some(
            ScalarView::I32(medium),
        ),
        stored_scalar(TypeKind::Int8, StoredScalarView::Integer(large as int)) == Some(
            ScalarView::I64(large),
        ),
        stored_scalar(TypeKind::Oid, StoredScalarView::Integer(object as int)) == Some(
            ScalarView::U32(object),
        ),
        stored_scalar(TypeKind::Bytea, StoredScalarView::Blob(bytes)) == Some(
            ScalarView::Bytes(bytes),
        ),
        stored_scalar(
            TypeKind::Uuid,
            StoredScalarView::Text { text: uuid_text(uuid), numeric, time_tz },
        ) == Some(ScalarView::Uuid(uuid)),
        stored_scalar(TypeKind::Other, StoredScalarView::Text { text, numeric, time_tz }) == Some(
            ScalarView::Text(TextKind::Plain, text),
        ),
{
    law_uuid_reads_back(uuid);
}

/// Whether an expression turns what it reads into text.
pub open spec fn casts(expression: Seq<char>) -> bool {
    "CAST("@.is_prefix_of(expression)
}

/// The reference that an expression reads: itself, or what it turns into text.
pub open spec fn read_reference(expression: Seq<char>) -> Seq<char> {
    if inside(expression, "CAST("@, " AS VARCHAR)"@) is Some {
        inside(expression, "CAST("@, " AS VARCHAR)"@)->0
    } else if inside(expression, "CAST("@, " AS VARCHAR[])"@) is Some {
        inside(expression, "CAST("@, " AS VARCHAR[])"@)->0
    } else {
        expression
    }
}

/// Whether a stored value is a text.
pub open spec fn holds_text(value: StoredScalar) -> bool {
    value is Text || value is Enum
}

/// A column is read back by an expression that yields what its conversion takes:
/// the expression turns the column into text exactly where the conversion takes a
/// text, and into a list of texts exactly where the column is an array. What it
/// reads is the column by its lake name, in the target table.
pub proof fn law_read_expression_yields_what_converts(column: ColumnSchema, value: StoredScalar)
    ensures
        stored_scalar(column.column_type.kind, value@) is Some ==> (holds_text(value) <==> casts(
            read_expression_of(column@),
        )),
        casts(read_expression_of(column@)) ==> (" AS VARCHAR[])"@.is_suffix_of(
            read_expression_of(column@),
        ) <==> column.column_type.is_array) && (" AS VARCHAR)"@.is_suffix_of(
            read_expression_of(column@),
        ) <==> !column.column_type.is_array),
        ({
            let name = inside(
                read_reference(read_expression_of(column@)),
                "cdc_target."@,
                Seq::empty(),
            );
            name is Some && identifier(name->0) == Some(lowered(column.name@))
        }),
{
    let name = lake_column(column@);
    let reference = "cdc_target."@ + name;
    let expression = read_expression_of(column@);
    law_identifier_reads_back(lowered(column.name@));
    lemma_inside("cdc_target."@, name, Seq::empty());
    assert(reference + Seq::<char>::empty() =~= reference);
    assert(reference[0] == 'c') by {
        reveal_strlit("cdc_target.");
    }
    if read_as_text(column@.kind) {
        if column.column_type.is_array {
            lemma_cast_to_list(reference);
        } else {
            lemma_cast_to_text(reference);
        }
    } else {
        lemma_not_cast(reference);
    }
}

proof fn lemma_cast_to_text(reference: Seq<char>)
    ensures
        ({
            let expression = "CAST("@ + reference + " AS VARCHAR)"@;
            &&& casts(expression)
            &&& " AS VARCHAR)"@.is_suffix_of(expression)
            &&& !" AS VARCHAR[])"@.is_suffix_of(expression)
            &&& read_reference(expression) == reference
        }),
{
    let expression = "CAST("@ + reference + " AS VARCHAR)"@;
    reveal_strlit("CAST(");
    reveal_strlit(" AS VARCHAR)");
    reveal_strlit(" AS VARCHAR[])");
    let length = expression.len() as int;
    lemma_inside("CAST("@, reference, " AS VARCHAR)"@);
    assert(expression.subrange(0, 5) =~= "CAST("@);
    assert(expression.subrange(length - 12, length) =~= " AS VARCHAR)"@);
    if length >= 14 {
        assert(expression.subrange(length - 14, length)[12] == expression[length - 2]);
        assert(expression[length - 2] == " AS VARCHAR)"@[10]);
    }
}

proof fn lemma_cast_to_list(reference: Seq<char>)
    ensures
        ({
            let expression = "CAST("@ + reference + " AS VARCHAR[])"@;
            &&& casts(expression)
            &&& " AS VARCHAR[])"@.is_suffix_of(expression)
            &&& !" AS VARCHAR)"@.is_suffix_of(expression)
            &&& read_reference(expression) == reference
        }),
{
    let expression = "CAST("@ + reference + " AS VARCHAR[])"@;
    reveal_strlit("CAST(");
    reveal_strlit(" AS VARCHAR)");
    reveal_strlit(" AS VARCHAR[])");
    let length = expression.len() as int;
    lemma_inside("CAST("@, reference, " AS VARCHAR[])"@);
    assert(expression.subrange(0, 5) =~= "CAST("@);
    assert(expression.subrange(length - 14, length) =~= " AS VARCHAR[])"@);
    assert(expression.subrange(length - 12, length)[10] == expression[length - 2]);
    assert(expression[length - 2] == " AS VARCHAR[])"@[12]);
    assert(expression.skip(length - 12)[10] == expression[length - 2]);
    assert(inside(expression, "CAST("@, " AS VARCHAR)"@) is None);
}

proof fn lemma_not_cast(reference: Seq<char>)
    requires
        reference.len() > 0,
        reference[0] == 'c',
    ensures
        !casts(reference),
        read_reference(reference) == reference,
{
    reveal_strlit("CAST(");
    if reference.len() >= 5 {
        assert(reference.subrange(0, 5)[0] == 'c');
        assert(reference.take(5)[0] == 'c');
    }
    assert("CAST("@[0] == 'C');
}

/// The integer a stored value of any width holds.
pub open spec fn held_number(value: StoredScalar) -> Option<int> {
    match value {
        StoredScalar::TinyInt(number) => Some(number as int),
        StoredScalar::SmallInt(number) => Some(number as int),
        StoredScalar::Int(number) => Some(number as int),
        StoredScalar::BigInt(number) => Some(number as int),
        StoredScalar::HugeInt(number) => Some(number as int),
        StoredScalar::UTinyInt(number) => Some(number as int),
        StoredScalar::USmallInt(number) => Some(number as int),
        StoredScalar::UInt(number) => Some(number as int),
        StoredScalar::UBigInt(number) => Some(number as int),
        _ => None,
    }
}

/// The least number that an integer column of a kind holds, and the least one that
/// is too large for it.
pub open spec fn number_range(kind: TypeKind) -> Option<(int, int)> {
    match kind {
        TypeKind::Int2 => Some((-0x8000, 0x8000)),
        TypeKind::Int4 => Some((-0x8000_0000, 0x8000_0000)),
        TypeKind::Int8 => Some((-0x8000_0000_0000_0000, 0x8000_0000_0000_0000)),
        TypeKind::Oid => Some((0, 0x1_0000_0000)),
        _ => None,
    }
}

/// The kind of column that a scalar without a text belongs to.
pub open spec fn plain_kind(scalar: Scalar) -> Option<TypeKind> {
    match scalar {
        Scalar::Bool(_) => Some(TypeKind::Bool),
        Scalar::I16(_) => Some(TypeKind::Int2),
        Scalar::I32(_) => Some(TypeKind::Int4),
        Scalar::U32(_) => Some(TypeKind::Oid),
        Scalar::I64(_) => Some(TypeKind::Int8),
        Scalar::Uuid(_) => Some(TypeKind::Uuid),
        Scalar::Bytes(_) => Some(TypeKind::Bytea),
        Scalar::Text(_, _) => None,
    }
}

/// An integer of any stored width converts in an integer column exactly when the
/// column holds its number, and nothing else converts there. A truth value, an
/// integer and bytes convert in no column but one of their own kind, and to
/// themselves.
pub proof fn law_stored_value_keeps_its_number(
    kind: TypeKind,
    value: StoredScalar,
    scalar: Scalar,
)
    ensures
        number_range(kind) matches Some(range) ==> (stored_scalar(kind, value@) is Some <==> (
        held_number(value) matches Some(number) && range.0 <= number < range.1)),
        kind is Bool ==> (stored_scalar(kind, value@) is Some <==> value is Boolean),
        kind is Bytea ==> (stored_scalar(kind, value@) is Some <==> value is Blob),
        value is Null || value is Other ==> stored_scalar(kind, value@) is None,
        stored_scalar(kind, value@) == Some(scalar@) ==> {
            &&& plain_kind(scalar) is Some ==> plain_kind(scalar) == Some(kind)
            &&& held_number(value) matches Some(number) ==> number_range(kind) is Some
                && scalar_meaning(scalar) == Meaning::Number(number)
            &&& value matches StoredScalar::Boolean(flag) ==> scalar_meaning(scalar)
                == Meaning::Truth(flag)
            &&& value matches StoredScalar::Blob(bytes) ==> scalar_meaning(scalar)
                == Meaning::Blob(bytes@)
        },
{
}

/// A text or an enum converts in the columns that are read as text and in no other:
/// as it stands in a text column, as the UUID it spells, as the document it is, and
/// as the number or the time that the codec reads from it. What it does not stand
/// for does not convert.
pub proof fn law_stored_text_converts_by_its_kind(
    kind: TypeKind,
    value: StoredScalar,
    text: String,
    numeric: Option<String>,
    time_tz: Option<String>,
    scalar: Scalar,
)
    requires
        value == (StoredScalar::Text { text, numeric, time_tz }) || value == (StoredScalar::Enum {
            text,
            numeric,
            time_tz,
        }),
    ensures
        stored_scalar(kind, value@) is Some <==> {
            ||| kind is Other
            ||| kind is Uuid && uuid_of(text@) is Some
            ||| (kind is Json || kind is Jsonb) && compact_json(text@) is Some
            ||| kind is Numeric && numeric is Some
            ||| kind is TimeTz && time_tz is Some
        },
        stored_scalar(kind, value@) == Some(scalar@) ==> {
            &&& kind is Other ==> scalar@ == ScalarView::Text(TextKind::Plain, text@)
            &&& kind is Uuid && uuid_of(text@)->0 < 0x1_0000_0000_0000_0000_0000_0000_0000_0000
                ==> scalar_meaning(scalar) == Meaning::Uuid(uuid_of(text@)->0)
            &&& kind is Json || kind is Jsonb ==> scalar@ == ScalarView::Text(
                TextKind::Json,
                compact_json(text@)->0,
            )
            &&& kind is Numeric ==> scalar@ == ScalarView::Text(TextKind::Numeric, numeric->0@)
            &&& kind is TimeTz ==> scalar@ == ScalarView::Text(TextKind::TimeTz, time_tz->0@)
        },
{
}

/// A floating-point value converts in the floating-point columns alone, in single
/// precision to its text in single precision and in double precision to its text in
/// double precision, whichever precision it is stored in.
pub proof fn law_stored_float_converts_by_its_precision(
    kind: TypeKind,
    value: StoredScalar,
    single: String,
    double: String,
)
    requires
        value == (StoredScalar::Float { single, double }) || value == (StoredScalar::Double {
            single,
            double,
        }),
    ensures
        stored_scalar(TypeKind::Float4, value@) == Some(
            ScalarView::Text(TextKind::Float4, single@),
        ),
        stored_scalar(TypeKind::Float8, value@) == Some(
            ScalarView::Text(TextKind::Float8, double@),
        ),
        stored_scalar(kind, value@) is Some ==> kind is Float4 || kind is Float8,
{
}

/// How many of a unit make one second.
pub open spec fn per_second(unit: TimeUnit) -> int {
    match unit {
        TimeUnit::Second => 1,
        TimeUnit::Millisecond => 1000,
        TimeUnit::Microsecond => 1_000_000,
        TimeUnit::Nanosecond => 1_000_000_000,
    }
}

/// A stored time is the time of day so many of its units after midnight: whatever
/// the unit, the seconds and the fraction that an amount stands for are those of
/// the text. It converts in a time column alone, and only within one day.
pub proof fn law_stored_time_is_its_time_of_day(
    kind: TypeKind,
    unit: TimeUnit,
    amount: i64,
    seconds: int,
    nanos: nat,
)
    requires
        nanos < 1_000_000_000,
        amount * 1_000_000_000 == (seconds * 1_000_000_000 + nanos) * per_second(unit),
    ensures
        stored_scalar(TypeKind::Time, StoredScalar::Time64(unit, amount)@) == (if 0 <= seconds
            < 86_400 {
            Some(ScalarView::Text(TextKind::Time, clock_text(seconds as nat, nanos)))
        } else {
            None
        }),
        stored_scalar(kind, StoredScalar::Time64(unit, amount)@) is Some ==> kind is Time,
{
    let total = amount * unit_nanos(unit);
    assert(total == seconds * 1_000_000_000 + nanos) by {
        match unit {
            TimeUnit::Second => {},
            TimeUnit::Millisecond => {},
            TimeUnit::Microsecond => {},
            TimeUnit::Nanosecond => {},
        }
    }
    assert(total / 1_000_000_000 == seconds);
    assert(total % 1_000_000_000 == nanos);
}

/// A stored timestamp is the moment so many of its units after 1970-01-01: the text
/// is that of the calendar date, a space and that of the time of day, with the UTC
/// zone behind it in a column with a zone and without in one without. It converts in
/// no other column, and not where the calendar has no such date.
pub proof fn law_stored_timestamp_is_its_moment(
    kind: TypeKind,
    unit: TimeUnit,
    amount: i64,
    day: int,
    second: nat,
    nanos: nat,
)
    requires
        nanos < 1_000_000_000,
        second < 86_400,
        amount * 1_000_000_000 == ((day * 86_400 + second) * 1_000_000_000 + nanos) * per_second(
            unit,
        ),
    ensures
        ({
            let moment = calendar_date(day) + " "@ + clock_text(second, nanos);
            let plain = stored_scalar(
                TypeKind::Timestamp,
                StoredScalar::Timestamp(unit, amount)@,
            );
            let zoned = stored_scalar(
                TypeKind::TimestampTz,
                StoredScalar::Timestamp(unit, amount)@,
            );
            if date_text(day) is Some {
                &&& plain == Some(ScalarView::Text(TextKind::Timestamp, moment))
                &&& zoned == Some(ScalarView::Text(TextKind::TimestampTz, moment + "+00"@))
            } else {
                plain is None && zoned is None
            }
        }),
        stored_scalar(kind, StoredScalar::Timestamp(unit, amount)@) is Some ==> kind is Timestamp
            || kind is TimestampTz,
{
    let total = amount * unit_nanos(unit);
    let seconds = day * 86_400 + second;
    assert(total == seconds * 1_000_000_000 + nanos) by {
        match unit {
            TimeUnit::Second => {},
            TimeUnit::Millisecond => {},
            TimeUnit::Microsecond => {},
            TimeUnit::Nanosecond => {},
        }
    }
    assert(total / 1_000_000_000 == seconds);
    assert(total % 1_000_000_000 == nanos);
    assert(seconds / 86_400 == day);
    assert(seconds % 86_400 == second);
}

/// A stored date is the calendar date of its day, in a date column alone.
pub proof fn law_stored_date_is_its_calendar_date(kind: TypeKind, day: i32)
    ensures
        stored_scalar(TypeKind::Date, StoredScalar::Date32(day)@) == (match date_text(
            day as int,
        ) {
            None => None,
            Some(text) => Some(ScalarView::Text(TextKind::Date, text)),
        }),
        date_text(day as int) matches Some(text) ==> text == calendar_date(day as int),
        stored_scalar(kind, StoredScalar::Date32(day)@) is Some ==> kind is Date,
{
}

/// Whether a stored element converts in an array of a kind: an absent one does in
/// every array, and any other one as it does in a column of that kind.
pub open spec fn element_converts(kind: TypeKind, value: StoredScalar) -> bool {
    value is Null || stored_scalar(kind, value@) is Some
}

proof fn lemma_elements(kind: TypeKind, values: Seq<StoredScalar>)
    ensures
        stored_elements(kind, stored_views(values)) is Some <==> forall|k: int|
            0 <= k < values.len() ==> element_converts(kind, #[trigger] values[k]),
        stored_elements(kind, stored_views(values)) matches Some(elements) ==> {
            &&& elements.len() == values.len()
            &&& forall|k: int|
                0 <= k < values.len() ==> #[trigger] elements[k] == (if values[k] is Null {
                    None
                } else {
                    stored_scalar(kind, values[k]@)
                })
        },
    decreases values.len(),
{
    let views = stored_views(values);
    if values.len() > 0 {
        let last = values.len() - 1;
        lemma_elements(kind, values.drop_last());
        assert(views.drop_last() =~= stored_views(values.drop_last()));
        assert(views.last() == values[last]@);
        let all = forall|k: int|
            0 <= k < values.len() ==> element_converts(kind, #[trigger] values[k]);
        let earlier = forall|k: int|
            0 <= k < values.drop_last().len() ==> element_converts(
                kind,
                #[trigger] values.drop_last()[k],
            );
        assert(all == (earlier && element_converts(kind, values[last]))) by {
            assert(forall|k: int|
                0 <= k < last ==> (#[trigger] values.drop_last()[k]) == values[k]);
            assert(forall|k: int|
                0 <= k < last ==> (#[trigger] values[k]) == values.drop_last()[k]);
        }
    }
}

/// An array column converts a list of any form element by element, in order, each
/// one as a column of its kind does and absent ones as absent, and fails where one
/// element does. Lists convert in no other column, and single values in no array
/// column but for the absent one.
pub proof fn law_stored_arrays_convert_by_element(
    kind: TypeKind,
    label: Seq<char>,
    values: Vec<StoredScalar>,
    single: StoredScalar,
)
    ensures
        stored_cell(kind, true, label, StoredValue::List(values)@) == stored_cell(
            kind,
            true,
            label,
            StoredValue::Array(values)@,
        ),
        match stored_cell(kind, true, label, StoredValue::List(values)@) {
            Err(error) => error == unexpected_value(label) && exists|k: int|
                0 <= k < values@.len() && !element_converts(kind, #[trigger] values@[k]),
            Ok(cell) => cell matches CellView::Array(elements) && elements.len() == values@.len()
                && forall|k: int|
                0 <= k < values@.len() ==> element_converts(kind, #[trigger] values@[k])
                    && elements[k] == (if values@[k] is Null {
                    None
                } else {
                    stored_scalar(kind, values@[k]@)
                }),
        },
        stored_cell(kind, false, label, StoredValue::List(values)@) == Err::<CellView, ErrorView>(
            unexpected_value(label),
        ),
        stored_cell(kind, false, label, StoredValue::Array(values)@) == Err::<CellView, ErrorView>(
            unexpected_value(label),
        ),
        stored_cell(kind, true, label, StoredValue::Scalar(single)@) == (if single is Null {
            Ok::<CellView, ErrorView>(CellView::Null)
        } else {
            Err(unexpected_value(label))
        }),
        stored_cell(kind, false, label, StoredValue::Scalar(single)@) == (if single is Null {
            Ok::<CellView, ErrorView>(CellView::Null)
        } else {
            match stored_scalar(kind, single@) {
                Some(scalar) => Ok(CellView::Value(scalar)),
                None => Err(unexpected_value(label)),
            }
        }),
{
    lemma_elements(kind, values@);
}

/// A type without a lake type of its own is read back as text, and of the types that have
/// one only numbers without a machine integer, UUIDs and documents are.
pub proof fn law_types_without_a_lake_type_are_read_as_text(column: ColumnSchema)
    ensures
        ({
            let kind = column.column_type.kind;
            let own = dedicated_type(kind, column.column_type.is_array);
            &&& !own ==> casts(read_expression_of(column@))
            &&& own && casts(read_expression_of(column@)) ==> kind is Numeric || kind is Uuid
                || kind is Json || kind is Jsonb
            &&& kind is Numeric ==> own == !column.column_type.is_array
            &&& kind is TimeTz || kind is Other <==> !own && !(kind is Numeric)
        }),
{
    let expression = read_expression_of(column@);
    let reference = "cdc_target."@ + lake_column(column@);
    reveal_strlit("CAST(");
    reveal_strlit("cdc_target.");
    assert(reference[0] == 'c');
    if read_as_text(column@.kind) {
        assert(expression.subrange(0, 5) =~= "CAST("@);
    } else {
        assert(expression.subrange(0, 5)[0] == 'c' || expression.len() < 5);
        assert("CAST("@[0] == 'C');
    }
}

/// A value that its column cannot hold is refused by an error that names the column's type.
pub proof fn law_refused_values_name_their_type(label: Seq<char>)
    ensures
        unexpected_value(label).kind is ConversionError,
        unexpected_value(label).description
            == "DuckLake recovered value does not match its column type"@,
        unexpected_value(label).detail == Some(
            "Column type "@ + label + " cannot be read back from its stored value"@,
        ),
{
}

/// Whether a value has the shape that a column of a kind is stored in, where the lake has
/// a lossless one, and stands for a value of that kind.
pub open spec fn stored_shape(kind: TypeKind, value: StoredScalar) -> bool {
    match kind {
        TypeKind::Bool => value is Boolean,
        TypeKind::Int2 | TypeKind::Int4 | TypeKind::Int8 | TypeKind::Oid => match (
            held_number(value),
            number_range(kind),
        ) {
            (Some(number), Some(range)) => range.0 <= number < range.1,
            _ => false,
        },
        TypeKind::Float4 | TypeKind::Float8 => value is Float || value is Double,
        TypeKind::Date => value matches StoredScalar::Date32(day) && date_text(day as int) is Some,
        TypeKind::Time => value matches StoredScalar::Time64(unit, amount) && 0 <= amount < 86_400
            * per_second(unit),
        TypeKind::Timestamp | TypeKind::TimestampTz => value matches StoredScalar::Timestamp(
            unit,
            amount,
        ) && date_text(amount as int / (86_400 * per_second(unit))) is Some,
        TypeKind::Bytea => value is Blob,
        _ => false,
    }
}

/// Whether a value is a text that spells a value of a kind.
pub open spec fn spells(kind: TypeKind, value: StoredScalar) -> bool {
    match value {
        StoredScalar::Text { text, numeric, time_tz } | StoredScalar::Enum {
            text,
            numeric,
            time_tz,
        } => {
            &&& kind is Uuid ==> uuid_of(text@) is Some
            &&& kind is Json || kind is Jsonb ==> compact_json(text@) is Some
            &&& kind is Numeric ==> numeric is Some
            &&& kind is TimeTz ==> time_tz is Some
        },
        _ => false,
    }
}

/// Whether a value is one that the read expression of a column yields: a text where it
/// turns the column into text, and the stored shape where it does not.
pub open spec fn is_yielded(column: ColumnSchema, value: StoredScalar) -> bool {
    if casts(read_expression_of(column@)) {
        spells(column.column_type.kind, value)
    } else {
        stored_shape(column.column_type.kind, value)
    }
}

proof fn lemma_shapes_convert(kind: TypeKind, value: StoredScalar)
    requires
        stored_shape(kind, value),
    ensures
        stored_scalar(kind, value@) is Some,
{
    match value {
        StoredScalar::Time64(unit, amount) => {
            let total = amount * unit_nanos(unit);
            let seconds = total / 1_000_000_000;
            let nanos = (total % 1_000_000_000) as nat;
            assert(amount * 1_000_000_000 == (seconds * 1_000_000_000 + nanos) * per_second(unit)
                && 0 <= seconds < 86_400) by {
                match unit {
                    TimeUnit::Second => {},
                    TimeUnit::Millisecond => {},
                    TimeUnit::Microsecond => {},
                    TimeUnit::Nanosecond => {},
                }
            }
            law_stored_time_is_its_time_of_day(kind, unit, amount, seconds, nanos);
        },
        StoredScalar::Timestamp(unit, amount) => {
            let total = amount * unit_nanos(unit);
            let seconds = total / 1_000_000_000;
            let nanos = (total % 1_000_000_000) as nat;
            let day = seconds / 86_400;
            let second = (seconds % 86_400) as nat;
            assert(amount * 1_000_000_000 == ((day * 86_400 + second) * 1_000_000_000 + nanos)
                * per_second(unit)) by {
                match unit {
                    TimeUnit::Second => {},
                    TimeUnit::Millisecond => {},
                    TimeUnit::Microsecond => {},
                    TimeUnit::Nanosecond => {},
                }
            }
            match unit {
                TimeUnit::Second => {
                    assert(86_400 * per_second(unit) == 86_400);
                    assert(day == amount as int / 86_400);
                },
                TimeUnit::Millisecond => {
                    assert(86_400 * per_second(unit) == 86_400_000);
                    assert(day == amount as int / 86_400_000);
                },
                TimeUnit::Microsecond => {
                    assert(86_400 * per_second(unit) == 86_400_000_000);
                    assert(day == amount as int / 86_400_000_000);
                },
                TimeUnit::Nanosecond => {
                    assert(86_400 * per_second(unit) == 86_400_000_000_000);
                    assert(day == amount as int / 86_400_000_000_000);
                },
            }
            assert(day == amount as int / (86_400 * per_second(unit)));
            law_stored_timestamp_is_its_moment(kind, unit, amount, day, second, nanos);
        },
        _ => {},
    }
}

/// What the read expression of a column yields converts, for every kind of column: a
/// single value where the column is none of an array, and a list of such values, absent
/// ones included, where it is.
pub proof fn law_what_is_read_converts(
    column: ColumnSchema,
    value: StoredScalar,
    values: Vec<StoredScalar>,
)
    requires
        is_yielded(column, value),
        forall|k: int|
            0 <= k < values@.len() ==> (#[trigger] values@[k]) is Null || is_yielded(
                column,
                values@[k],
            ),
    ensures
        stored_scalar(column.column_type.kind, value@) is Some,
        !column.column_type.is_array ==> stored_cell(
            column.column_type.kind,
            false,
            column.column_type.name@,
            StoredValue::Scalar(value)@,
        ) is Ok,
        column.column_type.is_array ==> stored_cell(
            column.column_type.kind,
            true,
            column.column_type.name@,
            StoredValue::List(values)@,
        ) is Ok,
{
    lemma_yielded_converts(column, value);
    assert forall|k: int| 0 <= k < values@.len() implies element_converts(
        column.column_type.kind,
        #[trigger] values@[k],
    ) by {
        if !(values@[k] is Null) {
            lemma_yielded_converts(column, values@[k]);
        }
    }
    lemma_elements(column.column_type.kind, values@);
}

proof fn lemma_yielded_converts(column: ColumnSchema, value: StoredScalar)
    requires
        is_yielded(column, value),
    ensures
        stored_scalar(column.column_type.kind, value@) is Some,
        !(value is Null),
{
    let reference = "cdc_target."@ + lake_column(column@);
    if read_as_text(column@.kind) {
        if column.column_type.is_array {
            lemma_cast_to_list(reference);
        } else {
            lemma_cast_to_text(reference);
        }
    } else {
        assert(reference[0] == 'c') by {
            reveal_strlit("cdc_target.");
        }
        lemma_not_cast(reference);
        lemma_shapes_convert(column.column_type.kind, value);
    }
}

} // verus!
