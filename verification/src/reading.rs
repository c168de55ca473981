//! What a database reads in the texts that are handed to it.

use vstd::arithmetic::div_mod::lemma_small_mod;
use vstd::prelude::*;

use crate::data::{element_view, element_views, Cell, Scalar, TableRow};
use crate::external::{hex_number, literal_text, uuid_of};
use crate::literal::{
    blob_text, cell_literal, cell_literals, element_literal, element_literals, row_literal,
    scalar_literal, uuid_text,
};
use crate::stored_value::law_uuid_reads_back;
use crate::text::{
    decimal, decimal_int, digit_char, doubled, hex, hex_span, joined, lemma_hex_length,
    lemma_hex_span_positive, lowered, quoted,
};

verus! {

/// The value of a decimal digit.
pub open spec fn digit_value(character: char) -> Option<nat> {
    if '0' <= character <= '9' {
        Some((character as int - '0' as int) as nat)
    } else {
        None
    }
}

/// The number a decimal numeral stands for.
pub open spec fn numeral(text: Seq<char>) -> Option<nat>
    decreases text.len(),
{
    if text.len() == 0 {
        None
    } else if text.len() == 1 {
        digit_value(text[0])
    } else {
        match (numeral(text.drop_last()), digit_value(text.last())) {
            (Some(high), Some(low)) => Some(10 * high + low),
            _ => None,
        }
    }
}

/// The number a decimal numeral with an optional sign stands for.
pub open spec fn integer(text: Seq<char>) -> Option<int> {
    if text.len() > 0 && text[0] == '-' {
        match numeral(text.skip(1)) {
            None => None,
            Some(number) => Some(-number),
        }
    } else {
        match numeral(text) {
            None => None,
            Some(number) => Some(number as int),
        }
    }
}

/// A rendered number reads back as that number, and starts with a digit.
pub proof fn law_decimal_reads_back(value: nat)
    ensures
        numeral(decimal(value)) == Some(value),
        decimal(value).len() > 0,
        forall|i: int|
            0 <= i < decimal(value).len() ==> '0' <= #[trigger] decimal(value)[i] <= '9',
    decreases value,
{
    let text = decimal(value);
    if value >= 10 {
        law_decimal_reads_back(value / 10);
        let high = decimal(value / 10);
        assert(text.drop_last() =~= high);
        assert(text.last() == digit_char(value % 10));
        assert forall|i: int| 0 <= i < text.len() implies '0' <= #[trigger] text[i] <= '9' by {
            if i < high.len() {
                assert(text[i] == high[i]);
            }
        }
    }
}

/// A rendered integer reads back as that integer.
pub proof fn law_integer_reads_back(value: int)
    ensures
        integer(decimal_int(value)) == Some(value),
        decimal_int(value).len() > 0,
        forall|i: int|
            0 <= i < decimal_int(value).len() ==> '0' <= #[trigger] decimal_int(value)[i] <= '9'
                || decimal_int(value)[i] == '-',
{
    if value < 0 {
        law_decimal_reads_back((-value) as nat);
        let digits = decimal((-value) as nat);
        let text = decimal_int(value);
        assert(text.skip(1) =~= digits);
        assert forall|i: int| 0 <= i < text.len() implies '0' <= #[trigger] text[i] <= '9'
            || text[i] == '-' by {
            if i > 0 {
                assert(text[i] == digits[i - 1]);
            }
        }
    } else {
        law_decimal_reads_back(value as nat);
    }
}

/// Rendered hexadecimal digits read back as the number they were written from, up
/// to what that many digits can tell, and there are that many.
pub proof fn law_hex_reads_back(value: nat, width: nat)
    ensures
        hex_number(hex(value, width)) == Some((value % hex_span(width)) as nat),
        hex(value, width).len() == width,
        value < hex_span(width) ==> hex_number(hex(value, width)) == Some(value),
        hex_span(width) > 0,
    decreases width,
{
    lemma_hex_length(value, width);
    lemma_hex_span_positive(width);
    if width > 0 {
        let shorter = (width - 1) as nat;
        law_hex_reads_back(value / 16, shorter);
        vstd::arithmetic::div_mod::lemma_mod_breakdown(
            value as int,
            16,
            hex_span(shorter) as int,
        );
        let digits = hex(value, width);
        assert(digits.drop_last() =~= hex(value / 16, shorter));
        assert(digits.last() == digit_char(value % 16));
    } else {
        assert(value % 1 == 0);
    }
    if value < hex_span(width) {
        lemma_small_mod(value, hex_span(width));
    }
}

/// A text in which each character in `marked` stands for itself only when it is
/// written twice.
pub open spec fn unescaped(text: Seq<char>, marked: Set<char>) -> Option<Seq<char>>
    decreases text.len(),
{
    if text.len() == 0 {
        Some(Seq::empty())
    } else if !marked.contains(text.last()) {
        match unescaped(text.drop_last(), marked) {
            None => None,
            Some(lead) => Some(lead.push(text.last())),
        }
    } else if text.len() < 2 || text[text.len() - 2] != text.last() {
        None
    } else {
        match unescaped(text.take(text.len() - 2), marked) {
            None => None,
            Some(lead) => Some(lead.push(text.last())),
        }
    }
}

/// What stands between two quotes.
pub open spec fn between(text: Seq<char>, quote: char) -> Option<Seq<char>> {
    if text.len() >= 2 && text[0] == quote && text.last() == quote {
        Some(text.subrange(1, text.len() - 1))
    } else {
        None
    }
}

/// The name a quoted identifier stands for.
pub open spec fn identifier(text: Seq<char>) -> Option<Seq<char>> {
    match between(text, '"') {
        None => None,
        Some(body) => unescaped(body, set!['"']),
    }
}

/// The text a string literal stands for. A backslash has a meaning of its own only
/// behind an `E`.
pub open spec fn string(text: Seq<char>) -> Option<Seq<char>> {
    if text.len() > 0 && text[0] == 'E' {
        match between(text.skip(1), '\'') {
            None => None,
            Some(body) => unescaped(body, set!['\'', '\\']),
        }
    } else {
        match between(text, '\'') {
            None => None,
            Some(body) => unescaped(body, set!['\'']),
        }
    }
}

/// Characters that were written twice are read once.
pub proof fn law_doubled_reads_back(text: Seq<char>, marked: Set<char>)
    ensures
        unescaped(doubled(text, marked), marked) == Some(text),
    decreases text.len(),
{
    if text.len() > 0 {
        let lead = text.drop_last();
        law_doubled_reads_back(lead, marked);
        let all = doubled(text, marked);
        if marked.contains(text.last()) {
            assert(all.take(all.len() - 2) =~= doubled(lead, marked));
        } else {
            assert(all.drop_last() =~= doubled(lead, marked));
        }
        assert(lead.push(text.last()) =~= text);
    }
}

/// A quoted identifier reads back as its name, so distinct names have distinct
/// identifiers.
pub proof fn law_identifier_reads_back(name: Seq<char>)
    ensures
        identifier(quoted(name)) == Some(name),
{
    law_doubled_reads_back(name, set!['"']);
    let text = quoted(name);
    assert(text.subrange(1, text.len() - 1) =~= doubled(name, set!['"']));
}

proof fn lemma_fewer_marks(text: Seq<char>)
    requires
        !text.contains('\\'),
    ensures
        doubled(text, set!['\'', '\\']) == doubled(text, set!['\'']),
    decreases text.len(),
{
    if text.len() > 0 {
        let lead = text.drop_last();
        assert(text[text.len() - 1] == text.last());
        assert(!lead.contains('\\')) by {
            if lead.contains('\\') {
                let k = choose|k: int| 0 <= k < lead.len() && lead[k] == '\\';
                assert(text[k] == '\\');
            }
        }
        lemma_fewer_marks(lead);
    }
}

/// A string literal reads back as its text, so distinct texts have distinct
/// literals.
pub proof fn law_string_reads_back(text: Seq<char>)
    ensures
        string(literal_text(text)) == Some(text),
        literal_text(text).len() >= 2,
        literal_text(text)[0] == '\'' || literal_text(text)[0] == 'E',
{
    let both = set!['\'', '\\'];
    let literal = literal_text(text);
    law_doubled_reads_back(text, both);
    if text.contains('\\') {
        let body = literal.skip(1);
        assert(body =~= seq!['\''] + doubled(text, both) + seq!['\'']);
        assert(body.subrange(1, body.len() - 1) =~= doubled(text, both));
    } else {
        lemma_fewer_marks(text);
        law_doubled_reads_back(text, set!['\'']);
        assert(literal.subrange(1, literal.len() - 1) =~= doubled(text, both));
    }
}

/// The bytes an escaped blob text stands for.
pub open spec fn blob(text: Seq<char>) -> Option<Seq<u8>>
    decreases text.len(),
{
    if text.len() == 0 {
        Some(Seq::empty())
    } else if text.len() < 4 || text[text.len() - 4] != '\\' || text[text.len() - 3] != 'x' {
        None
    } else {
        match (blob(text.take(text.len() - 4)), hex_number(text.skip(text.len() - 2))) {
            (Some(lead), Some(byte)) => Some(lead.push(byte as u8)),
            _ => None,
        }
    }
}

/// A rendered blob reads back as its bytes.
pub proof fn law_blob_reads_back(bytes: Seq<u8>)
    ensures
        blob(blob_text(bytes)) == Some(bytes),
        !blob_text(bytes).contains('\''),
    decreases bytes.len(),
{
    if bytes.len() > 0 {
        let lead = bytes.drop_last();
        law_blob_reads_back(lead);
        reveal_strlit("\\x");
        let digits = hex(bytes.last() as nat, 2);
        assert(hex_span(2) == 256) by {
            reveal_with_fuel(hex_span, 3);
        }
        law_hex_reads_back(bytes.last() as nat, 2);
        let text = blob_text(bytes);
        assert(text.take(text.len() - 4) =~= blob_text(lead));
        assert(text.skip(text.len() - 2) =~= digits);
        assert(lead.push(bytes.last()) =~= bytes);
        lemma_hex_has_no_quote(bytes.last() as nat, 2);
        assert forall|i: int| 0 <= i < text.len() implies text[i] != '\'' by {
            if i < text.len() - 4 {
                assert(text[i] == blob_text(lead)[i]);
            } else if i >= text.len() - 2 {
                assert(text[i] == digits[i - (text.len() - 2)]);
            }
        }
    }
}

proof fn lemma_hex_has_no_quote(value: nat, width: nat)
    ensures
        !hex(value, width).contains('\''),
    decreases width,
{
    if width > 0 {
        let lead = hex(value / 16, (width - 1) as nat);
        lemma_hex_has_no_quote(value / 16, (width - 1) as nat);
        let text = hex(value, width);
        assert forall|i: int| 0 <= i < text.len() implies text[i] != '\'' by {
            if i < lead.len() {
                assert(text[i] == lead[i]);
            }
        }
    }
}

/// What a literal stands for.
pub enum Meaning {
    Null,
    Truth(bool),
    Number(int),
    Uuid(nat),
    Blob(Seq<u8>),
    Text(Seq<char>),
}

/// What stands between two texts.
pub open spec fn inside(text: Seq<char>, lead: Seq<char>, tail: Seq<char>) -> Option<Seq<char>> {
    if lead.len() + tail.len() <= text.len() && text.take(lead.len() as int) == lead && text.skip(
        text.len() - tail.len(),
    ) == tail {
        Some(text.subrange(lead.len() as int, text.len() - tail.len()))
    } else {
        None
    }
}

/// What a literal of one value stands for.
pub open spec fn meaning(text: Seq<char>) -> Option<Meaning> {
    if text == "NULL"@ {
        Some(Meaning::Null)
    } else if text == "true"@ {
        Some(Meaning::Truth(true))
    } else if text == "false"@ {
        Some(Meaning::Truth(false))
    } else if inside(text, "CAST('"@, "' AS UUID)"@) is Some {
        match uuid_of(inside(text, "CAST('"@, "' AS UUID)"@)->0) {
            None => None,
            Some(number) => Some(Meaning::Uuid(number)),
        }
    } else if inside(text, "CAST('"@, "' AS BLOB)"@) is Some {
        match blob(inside(text, "CAST('"@, "' AS BLOB)"@)->0) {
            None => None,
            Some(bytes) => Some(Meaning::Blob(bytes)),
        }
    } else if text.len() > 0 && (text[0] == '\'' || text[0] == 'E') {
        match string(text) {
            None => None,
            Some(text) => Some(Meaning::Text(text)),
        }
    } else {
        match integer(text) {
            None => None,
            Some(number) => Some(Meaning::Number(number)),
        }
    }
}

/// What a scalar is, whatever its machine type.
pub open spec fn scalar_meaning(scalar: Scalar) -> Meaning {
    match scalar {
        Scalar::Bool(value) => Meaning::Truth(value),
        Scalar::I16(value) => Meaning::Number(value as int),
        Scalar::I32(value) => Meaning::Number(value as int),
        Scalar::U32(value) => Meaning::Number(value as int),
        Scalar::I64(value) => Meaning::Number(value as int),
        Scalar::Uuid(value) => Meaning::Uuid(value as nat),
        Scalar::Bytes(bytes) => Meaning::Blob(bytes@),
        Scalar::Text(_, text) => Meaning::Text(text@),
    }
}

/// What was put between two texts stands there.
pub proof fn lemma_inside(lead: Seq<char>, body: Seq<char>, tail: Seq<char>)
    ensures
        inside(lead + body + tail, lead, tail) == Some(body),
{
    let text = lead + body + tail;
    assert(text.take(lead.len() as int) =~= lead);
    assert(text.skip(text.len() - tail.len()) =~= tail);
    assert(text.subrange(lead.len() as int, text.len() - tail.len()) =~= body);
}

/// The literal of a scalar reads back as its value: a database stores what the
/// source held. Literals of distinct values of one type are therefore distinct.
pub proof fn law_scalar_literal_reads_back(scalar: Scalar)
    ensures
        meaning(scalar_literal(scalar@)) == Some(scalar_meaning(scalar)),
{
    reveal_strlit("NULL");
    reveal_strlit("true");
    reveal_strlit("false");
    reveal_strlit("CAST('");
    reveal_strlit("' AS UUID)");
    reveal_strlit("' AS BLOB)");
    let text = scalar_literal(scalar@);
    match scalar {
        Scalar::Bool(value) => {
            assert("true"@[0] == 't' && "false"@[0] == 'f' && "NULL"@[0] == 'N');
        },
        Scalar::I16(value) => law_number_literal_reads_back(value as int),
        Scalar::I32(value) => law_number_literal_reads_back(value as int),
        Scalar::U32(value) => law_number_literal_reads_back(value as int),
        Scalar::I64(value) => law_number_literal_reads_back(value as int),
        Scalar::Uuid(value) => {
            lemma_inside("CAST('"@, uuid_text(value), "' AS UUID)"@);
            law_uuid_reads_back(value);
            assert(text[0] == 'C');
        },
        Scalar::Bytes(bytes) => {
            lemma_inside("CAST('"@, blob_text(bytes@), "' AS BLOB)"@);
            law_blob_reads_back(bytes@);
            assert(text[0] == 'C');
            let end = text.skip(text.len() - 10);
            assert(end =~= "' AS BLOB)"@);
            assert(end[5] == 'B' && "' AS UUID)"@[5] == 'U');
        },
        Scalar::Text(_, value) => {
            law_string_reads_back(value@);
            lemma_no_lead(text, "CAST('"@, "' AS UUID)"@);
            lemma_no_lead(text, "CAST('"@, "' AS BLOB)"@);
            assert("true"@[0] == 't' && "false"@[0] == 'f' && "NULL"@[0] == 'N');
        },
    }
}

proof fn lemma_no_lead(text: Seq<char>, lead: Seq<char>, tail: Seq<char>)
    requires
        lead.len() > 0,
        text.len() > 0,
        text[0] != lead[0],
    ensures
        inside(text, lead, tail) is None,
{
    if lead.len() <= text.len() {
        assert(text.take(lead.len() as int)[0] == text[0]);
    }
}

/// The numeral of an integer is read as that number.
pub proof fn law_number_literal_reads_back(value: int)
    ensures
        meaning(decimal_int(value)) == Some(Meaning::Number(value)),
{
    let text = decimal_int(value);
    law_integer_reads_back(value);
    reveal_strlit("NULL");
    reveal_strlit("true");
    reveal_strlit("false");
    reveal_strlit("CAST('");
    assert('0' <= text[0] <= '9' || text[0] == '-');
    assert("true"@[0] == 't' && "false"@[0] == 'f' && "NULL"@[0] == 'N' && "CAST('"@[0] == 'C');
    lemma_no_lead(text, "CAST('"@, "' AS UUID)"@);
    lemma_no_lead(text, "CAST('"@, "' AS BLOB)"@);
}

/// What is read of a list of literals: the finished ones, the one under way,
/// whether that is inside a string, and inside how many arrays.
pub struct Scan {
    pub done: Seq<Seq<char>>,
    pub current: Seq<char>,
    pub open: bool,
    pub depth: int,
}

/// The reading once one more character was read. A comma outside of strings and
/// arrays ends a literal, and spaces in front of one are skipped.
pub open spec fn scan_step(scan: Scan, character: char) -> Scan {
    let longer = scan.current.push(character);
    if character == '\'' {
        Scan { current: longer, open: !scan.open, ..scan }
    } else if scan.open {
        Scan { current: longer, ..scan }
    } else if character == '[' {
        Scan { current: longer, depth: scan.depth + 1, ..scan }
    } else if character == ']' {
        Scan { current: longer, depth: scan.depth - 1, ..scan }
    } else if character == ',' && scan.depth == 0 {
        Scan { done: scan.done.push(scan.current), current: Seq::empty(), ..scan }
    } else if character == ' ' && scan.current.len() == 0 {
        scan
    } else {
        Scan { current: longer, ..scan }
    }
}

/// The reading once a text was read.
pub open spec fn scanned(scan: Scan, text: Seq<char>) -> Scan
    decreases text.len(),
{
    if text.len() == 0 {
        scan
    } else {
        scan_step(scanned(scan, text.drop_last()), text.last())
    }
}

/// A reading in front of a literal.
pub open spec fn before_item(done: Seq<Seq<char>>) -> Scan {
    Scan { done, current: Seq::empty(), open: false, depth: 0 }
}

/// The literals of a list, in order.
pub open spec fn items(text: Seq<char>) -> Seq<Seq<char>> {
    if text.len() == 0 {
        Seq::empty()
    } else {
        let end = scanned(before_item(Seq::empty()), text);
        end.done.push(end.current)
    }
}

/// Whether a text is read as one literal of a list.
pub open spec fn one_item(text: Seq<char>) -> bool {
    &&& text.len() > 0
    &&& forall|scan: Scan|
        !scan.open && scan.depth >= 0 ==> #[trigger] scanned(scan, text) == (Scan {
            current: scan.current + text,
            ..scan
        })
}

proof fn lemma_scanned_concat(scan: Scan, left: Seq<char>, right: Seq<char>)
    ensures
        scanned(scan, left + right) == scanned(scanned(scan, left), right),
    decreases right.len(),
{
    if right.len() == 0 {
        assert(left + right =~= left);
    } else {
        lemma_scanned_concat(scan, left, right.drop_last());
        assert((left + right).drop_last() =~= left + right.drop_last());
    }
}

/// Whether a text has no character that a reading outside of strings acts on.
spec fn is_plain(text: Seq<char>) -> bool {
    forall|i: int|
        0 <= i < text.len() ==> #[trigger] text[i] != '\'' && text[i] != ',' && text[i] != '['
            && text[i] != ']'
}

/// Outside of a string, a plain text is read as it stands.
proof fn lemma_plain(scan: Scan, text: Seq<char>)
    requires
        !scan.open,
        is_plain(text),
        scan.current.len() > 0 || (text.len() > 0 ==> text[0] != ' '),
    ensures
        scanned(scan, text) == (Scan { current: scan.current + text, ..scan }),
    decreases text.len(),
{
    if text.len() == 0 {
        assert(scan.current + text =~= scan.current);
    } else {
        let lead = text.drop_last();
        assert forall|i: int| 0 <= i < lead.len() implies #[trigger] lead[i] != '\'' && lead[i]
            != ',' && lead[i] != '[' && lead[i] != ']' by {
            assert(lead[i] == text[i]);
        }
        assert(text[text.len() - 1] == text.last());
        lemma_plain(scan, lead);
        assert(scan.current + text =~= (scan.current + lead).push(text.last()));
    }
}

/// Inside a string, a text without quotes is read as it stands.
proof fn lemma_open(scan: Scan, text: Seq<char>)
    requires
        scan.open,
        !text.contains('\''),
    ensures
        scanned(scan, text) == (Scan { current: scan.current + text, ..scan }),
    decreases text.len(),
{
    if text.len() == 0 {
        assert(scan.current + text =~= scan.current);
    } else {
        let lead = text.drop_last();
        assert(!lead.contains('\'')) by {
            if lead.contains('\'') {
                let k = choose|k: int| 0 <= k < lead.len() && lead[k] == '\'';
                assert(text[k] == '\'');
            }
        }
        assert(text[text.len() - 1] == text.last());
        lemma_open(scan, lead);
        assert(scan.current + text =~= (scan.current + lead).push(text.last()));
    }
}

/// Inside a string, a text with its quotes written twice is read as it stands.
proof fn lemma_open_doubled(scan: Scan, text: Seq<char>, marked: Set<char>)
    requires
        scan.open,
        marked.contains('\''),
    ensures
        scanned(scan, doubled(text, marked)) == (Scan {
            current: scan.current + doubled(text, marked),
            ..scan
        }),
    decreases text.len(),
{
    let all = doubled(text, marked);
    if text.len() == 0 {
        assert(scan.current + all =~= scan.current);
    } else {
        let lead = doubled(text.drop_last(), marked);
        lemma_open_doubled(scan, text.drop_last(), marked);
        if marked.contains(text.last()) {
            let once = lead.push(text.last());
            assert(all.drop_last() =~= once);
            assert(once.drop_last() =~= lead);
            assert(scanned(scan, once) == scan_step(scanned(scan, lead), text.last()));
            assert(scanned(scan, all) == scan_step(scanned(scan, once), text.last()));
            assert(scan.current + all =~= (scan.current + lead).push(text.last()).push(
                text.last(),
            ));
        } else {
            assert(all.drop_last() =~= lead);
            assert(scan.current + all =~= (scan.current + lead).push(text.last()));
        }
    }
}

proof fn lemma_one_character(scan: Scan, character: char)
    ensures
        scanned(scan, seq![character]) == scan_step(scan, character),
{
    let one = seq![character];
    assert(one.drop_last() =~= Seq::empty());
    assert(scanned(scan, one.drop_last()) == scan);
}

/// A text between quotes, behind a plain lead and in front of a plain tail, is read
/// as one literal.
proof fn lemma_wrapped(scan: Scan, lead: Seq<char>, body: Seq<char>, tail: Seq<char>)
    requires
        !scan.open,
        is_plain(lead),
        is_plain(tail),
        lead.len() > 0 ==> lead[0] != ' ',
        forall|s: Scan|
            s.open ==> #[trigger] scanned(s, body) == (Scan { current: s.current + body, ..s }),
    ensures
        scanned(scan, lead + seq!['\''] + body + seq!['\''] + tail) == (Scan {
            current: scan.current + (lead + seq!['\''] + body + seq!['\''] + tail),
            ..scan
        }),
{
    let quote = seq!['\''];
    lemma_plain(scan, lead);
    let a = scanned(scan, lead);
    lemma_scanned_concat(scan, lead, quote);
    lemma_one_character(a, '\'');
    let b = scanned(a, quote);
    lemma_scanned_concat(scan, lead + quote, body);
    let c = scanned(b, body);
    lemma_scanned_concat(scan, lead + quote + body, quote);
    lemma_one_character(c, '\'');
    let d = scanned(c, quote);
    lemma_scanned_concat(scan, lead + quote + body + quote, tail);
    lemma_plain(d, tail);
    assert(scanned(d, tail).current =~= scan.current + (lead + quote + body + quote + tail));
}

/// The literal of an element is read as one literal of a list.
pub proof fn law_literal_is_one_item(element: Option<Scalar>)
    ensures
        one_item(element_literal(element_view(element))),
{
    let text = element_literal(element_view(element));
    reveal_strlit("NULL");
    reveal_strlit("true");
    reveal_strlit("false");
    reveal_strlit("CAST('");
    reveal_strlit("' AS UUID)");
    reveal_strlit("' AS BLOB)");
    assert forall|scan: Scan| !scan.open && scan.depth >= 0 implies #[trigger] scanned(scan, text)
        == (Scan { current: scan.current + text, ..scan }) by {
        match element {
            None => lemma_plain(scan, text),
            Some(scalar) => match scalar {
                Scalar::Bool(_) => lemma_plain(scan, text),
                Scalar::I16(value) => lemma_number_item(scan, value as int),
                Scalar::I32(value) => lemma_number_item(scan, value as int),
                Scalar::U32(value) => lemma_number_item(scan, value as int),
                Scalar::I64(value) => lemma_number_item(scan, value as int),
                Scalar::Uuid(value) => {
                    lemma_uuid_has_no_quote(value);
                    lemma_cast_item(scan, uuid_text(value), " AS UUID)"@);
                    assert(text =~= "CAST("@ + seq!['\''] + uuid_text(value) + seq!['\'']
                        + " AS UUID)"@) by {
                        reveal_strlit("CAST(");
                        reveal_strlit(" AS UUID)");
                    }
                },
                Scalar::Bytes(bytes) => {
                    law_blob_reads_back(bytes@);
                    lemma_cast_item(scan, blob_text(bytes@), " AS BLOB)"@);
                    assert(text =~= "CAST("@ + seq!['\''] + blob_text(bytes@) + seq!['\'']
                        + " AS BLOB)"@) by {
                        reveal_strlit("CAST(");
                        reveal_strlit(" AS BLOB)");
                    }
                },
                Scalar::Text(_, value) => {
                    let both = set!['\'', '\\'];
                    let body = doubled(value@, both);
                    let lead: Seq<char> = if value@.contains('\\') {
                        seq!['E']
                    } else {
                        Seq::empty()
                    };
                    assert forall|s: Scan| s.open implies #[trigger] scanned(s, body) == (Scan {
                        current: s.current + body,
                        ..s
                    }) by {
                        lemma_open_doubled(s, value@, both);
                    }
                    lemma_wrapped(scan, lead, body, Seq::empty());
                    assert(text =~= lead + seq!['\''] + body + seq!['\''] + Seq::<char>::empty());
                },
            },
        }
    }
    match element {
        None => {},
        Some(scalar) => match scalar {
            Scalar::I16(value) => law_integer_reads_back(value as int),
            Scalar::I32(value) => law_integer_reads_back(value as int),
            Scalar::U32(value) => law_integer_reads_back(value as int),
            Scalar::I64(value) => law_integer_reads_back(value as int),
            _ => {},
        },
    }
}

proof fn lemma_cast_item(scan: Scan, body: Seq<char>, tail: Seq<char>)
    requires
        !scan.open,
        !body.contains('\''),
        tail == " AS UUID)"@ || tail == " AS BLOB)"@,
    ensures
        scanned(scan, "CAST("@ + seq!['\''] + body + seq!['\''] + tail) == (Scan {
            current: scan.current + ("CAST("@ + seq!['\''] + body + seq!['\''] + tail),
            ..scan
        }),
{
    reveal_strlit("CAST(");
    reveal_strlit(" AS UUID)");
    reveal_strlit(" AS BLOB)");
    assert forall|s: Scan| s.open implies #[trigger] scanned(s, body) == (Scan {
        current: s.current + body,
        ..s
    }) by {
        lemma_open(s, body);
    }
    lemma_wrapped(scan, "CAST("@, body, tail);
}

proof fn lemma_number_item(scan: Scan, value: int)
    requires
        !scan.open,
    ensures
        scanned(scan, decimal_int(value)) == (Scan {
            current: scan.current + decimal_int(value),
            ..scan
        }),
{
    let text = decimal_int(value);
    law_integer_reads_back(value);
    assert('0' <= text[0] <= '9' || text[0] == '-');
    lemma_plain(scan, text);
}

proof fn lemma_uuid_has_no_quote(value: u128)
    ensures
        !uuid_text(value).contains('\''),
{
    reveal_strlit("-");
    let a = hex((value / 0x1000000000000000000000000u128) as nat, 8);
    let b = hex((value / 0x100000000000000000000u128) as nat, 4);
    let c = hex((value / 0x10000000000000000u128) as nat, 4);
    let d = hex((value / 0x1000000000000u128) as nat, 4);
    let e = hex(value as nat, 12);
    lemma_hex_has_no_quote((value / 0x1000000000000000000000000u128) as nat, 8);
    lemma_hex_has_no_quote((value / 0x100000000000000000000u128) as nat, 4);
    lemma_hex_has_no_quote((value / 0x10000000000000000u128) as nat, 4);
    lemma_hex_has_no_quote((value / 0x1000000000000u128) as nat, 4);
    lemma_hex_has_no_quote(value as nat, 12);
    lemma_no_quote_joined(a, "-"@);
    lemma_no_quote_joined(a + "-"@, b);
    lemma_no_quote_joined(a + "-"@ + b, "-"@);
    lemma_no_quote_joined(a + "-"@ + b + "-"@, c);
    lemma_no_quote_joined(a + "-"@ + b + "-"@ + c, "-"@);
    lemma_no_quote_joined(a + "-"@ + b + "-"@ + c + "-"@, d);
    lemma_no_quote_joined(a + "-"@ + b + "-"@ + c + "-"@ + d, "-"@);
    lemma_no_quote_joined(a + "-"@ + b + "-"@ + c + "-"@ + d + "-"@, e);
}

proof fn lemma_no_quote_joined(left: Seq<char>, right: Seq<char>)
    requires
        !left.contains('\''),
        !right.contains('\''),
    ensures
        !(left + right).contains('\''),
{
    let all = left + right;
    assert forall|i: int| 0 <= i < all.len() implies all[i] != '\'' by {
        if i < left.len() {
            assert(all[i] == left[i]);
        } else {
            assert(all[i] == right[i - left.len()]);
        }
    }
}

proof fn lemma_items_scan(done: Seq<Seq<char>>, parts: Seq<Seq<char>>, separator: Seq<char>)
    requires
        parts.len() > 0,
        forall|k: int| 0 <= k < parts.len() ==> one_item(#[trigger] parts[k]),
        separator == ","@ || separator == ", "@,
    ensures
        scanned(before_item(done), joined(parts, separator)) == (Scan {
            current: parts.last(),
            ..before_item(done + parts.drop_last())
        }),
        joined(parts, separator).len() > 0,
    decreases parts.len(),
{
    let start = before_item(done);
    reveal_strlit(",");
    reveal_strlit(", ");
    let last = parts[parts.len() - 1];
    assert(one_item(last));
    assert(Seq::<char>::empty() + last =~= last);
    if parts.len() == 1 {
        assert(done + parts.drop_last() =~= done);
    } else {
        let lead = parts.drop_last();
        assert forall|k: int| 0 <= k < lead.len() implies one_item(#[trigger] lead[k]) by {
            assert(lead[k] == parts[k]);
        }
        lemma_items_scan(done, lead, separator);
        let before = scanned(start, joined(lead, separator));
        lemma_scanned_concat(start, joined(lead, separator), separator);
        let cut = before_item((done + lead.drop_last()).push(lead.last()));
        lemma_one_character(before, ',');
        assert(scanned(before, seq![',']) == cut);
        if separator == ","@ {
            assert(separator =~= seq![',']);
        } else {
            assert(separator =~= seq![','] + seq![' ']);
            lemma_scanned_concat(before, seq![','], seq![' ']);
            lemma_one_character(cut, ' ');
        }
        assert(scanned(before, separator) == cut);
        assert(cut.done =~= done + lead);
        lemma_scanned_concat(start, joined(lead, separator) + separator, last);
    }
}

/// Literals that are joined to a list are read as those literals, in order.
pub proof fn law_joined_items_read_back(parts: Seq<Seq<char>>, separator: Seq<char>)
    requires
        forall|k: int| 0 <= k < parts.len() ==> one_item(#[trigger] parts[k]),
        separator == ","@ || separator == ", "@,
    ensures
        items(joined(parts, separator)) == parts,
{
    if parts.len() > 0 {
        lemma_items_scan(Seq::empty(), parts, separator);
        assert((Seq::<Seq<char>>::empty() + parts.drop_last()).push(parts.last()) =~= parts);
    } else {
        assert(items(joined(parts, separator)) =~= parts);
    }
}

/// Inside an array, literals that are joined to a list are read as they stand.
proof fn lemma_nested(scan: Scan, parts: Seq<Seq<char>>)
    requires
        !scan.open,
        scan.depth > 0,
        scan.current.len() > 0,
        forall|k: int| 0 <= k < parts.len() ==> one_item(#[trigger] parts[k]),
    ensures
        scanned(scan, joined(parts, ", "@)) == (Scan {
            current: scan.current + joined(parts, ", "@),
            ..scan
        }),
    decreases parts.len(),
{
    reveal_strlit(", ");
    let all = joined(parts, ", "@);
    if parts.len() == 0 {
        assert(scan.current + all =~= scan.current);
    } else {
        let last = parts[parts.len() - 1];
        assert(one_item(last));
        if parts.len() > 1 {
            let lead = parts.drop_last();
            assert forall|k: int| 0 <= k < lead.len() implies one_item(#[trigger] lead[k]) by {
                assert(lead[k] == parts[k]);
            }
            lemma_nested(scan, lead);
            let before = scanned(scan, joined(lead, ", "@));
            lemma_scanned_concat(scan, joined(lead, ", "@), ", "@);
            assert(", "@ =~= seq![','] + seq![' ']);
            lemma_scanned_concat(before, seq![','], seq![' ']);
            lemma_one_character(before, ',');
            lemma_one_character(scanned(before, seq![',']), ' ');
            let middle = scanned(before, ", "@);
            lemma_scanned_concat(scan, joined(lead, ", "@) + ", "@, last);
            assert(scanned(middle, last).current =~= scan.current + all);
        }
    }
}

/// The literal of a cell is read as one literal of a list.
pub proof fn law_cell_is_one_item(cell: Cell)
    ensures
        one_item(cell_literal(cell@)),
{
    match cell {
        Cell::Null => law_literal_is_one_item(None),
        Cell::Value(scalar) => law_literal_is_one_item(Some(scalar)),
        Cell::Array(elements) => {
            let parts = element_literals(element_views(elements@));
            let text = cell_literal(cell@);
            reveal_strlit("[");
            reveal_strlit("]");
            assert forall|k: int| 0 <= k < parts.len() implies one_item(#[trigger] parts[k]) by {
                assert(parts[k] == element_literal(element_view(elements@[k])));
                law_literal_is_one_item(elements@[k]);
            }
            assert forall|scan: Scan| !scan.open && scan.depth >= 0 implies #[trigger] scanned(
                scan,
                text,
            ) == (Scan { current: scan.current + text, ..scan }) by {
                assert("["@ =~= seq!['[']);
                assert("]"@ =~= seq![']']);
                lemma_one_character(scan, '[');
                let a = scanned(scan, "["@);
                lemma_scanned_concat(scan, "["@, joined(parts, ", "@));
                lemma_nested(a, parts);
                let b = scanned(a, joined(parts, ", "@));
                lemma_scanned_concat(scan, "["@ + joined(parts, ", "@), "]"@);
                lemma_one_character(b, ']');
                assert(scanned(b, "]"@).current =~= scan.current + text);
            }
        },
    }
}

/// What an optional element is.
pub open spec fn element_meaning(element: Option<Scalar>) -> Meaning {
    match element {
        None => Meaning::Null,
        Some(scalar) => scalar_meaning(scalar),
    }
}

/// The literal of a cell reads back as the cell: an absent value as an absent one,
/// a scalar as its value, and an array as its elements, in order.
pub proof fn law_cell_literal_reads_back(cell: Cell)
    ensures
        cell is Null ==> meaning(cell_literal(cell@)) == Some(Meaning::Null),
        cell matches Cell::Value(scalar) ==> meaning(cell_literal(cell@)) == Some(
            scalar_meaning(scalar),
        ),
        cell matches Cell::Array(elements) ==> {
            let body = inside(cell_literal(cell@), "["@, "]"@);
            &&& body is Some
            &&& items(body->0).len() == elements@.len()
            &&& forall|k: int|
                0 <= k < elements@.len() ==> meaning(#[trigger] items(body->0)[k]) == Some(
                    element_meaning(elements@[k]),
                )
        },
{
    reveal_strlit("NULL");
    match cell {
        Cell::Null => {},
        Cell::Value(scalar) => law_scalar_literal_reads_back(scalar),
        Cell::Array(elements) => {
            let views = element_views(elements@);
            let parts = element_literals(views);
            lemma_inside("["@, joined(parts, ", "@), "]"@);
            assert forall|k: int| 0 <= k < parts.len() implies one_item(#[trigger] parts[k])
                && meaning(parts[k]) == Some(element_meaning(elements@[k])) by {
                assert(parts[k] == element_literal(element_view(elements@[k])));
                law_literal_is_one_item(elements@[k]);
                if elements@[k] is Some {
                    law_scalar_literal_reads_back(elements@[k]->0);
                }
            }
            law_joined_items_read_back(parts, ", "@);
        },
    }
}

/// The SQL tuple of a row reads back as its cells, one for each column and in
/// column order.
pub proof fn law_row_literal_reads_back(row: TableRow)
    ensures
        ({
            let body = inside(row_literal(row@), "("@, ")"@);
            &&& body is Some
            &&& items(body->0).len() == row.values@.len()
            &&& forall|k: int|
                0 <= k < row.values@.len() ==> #[trigger] items(body->0)[k] == cell_literal(
                    row.values@[k]@,
                ) && reads_as(items(body->0)[k], row.values@[k])
        }),
{
    let parts = cell_literals(row@);
    lemma_inside("("@, joined(parts, ", "@), ")"@);
    assert forall|k: int| 0 <= k < parts.len() implies one_item(#[trigger] parts[k]) && parts[k]
        == cell_literal(row.values@[k]@) && reads_as(parts[k], row.values@[k]) by {
        law_cell_is_one_item(row.values@[k]);
        law_cell_literal_stands_for_its_cell(row.values@[k]);
    }
    law_joined_items_read_back(parts, ", "@);
}

/// Lowercasing touches the letters from `A` to `Z` alone, each of which becomes
/// its small letter, so a name that holds none of them is kept.
pub proof fn law_lowered_folds_letters(text: Seq<char>)
    ensures
        lowered(text).len() == text.len(),
        forall|i: int|
            0 <= i < text.len() ==> if 'A' <= #[trigger] text[i] <= 'Z' {
                lowered(text)[i] as int == text[i] as int + 'a' as int - 'A' as int
            } else {
                lowered(text)[i] == text[i]
            },
        lowered(lowered(text)) == lowered(text),
{
    assert(lowered(lowered(text)) =~= lowered(text));
}

/// Whether a literal stands for a cell: for an absent value, for a scalar by its
/// value, and for an array by its elements, in order.
pub open spec fn reads_as(literal: Seq<char>, cell: Cell) -> bool {
    match cell {
        Cell::Null => meaning(literal) == Some(Meaning::Null),
        Cell::Value(scalar) => meaning(literal) == Some(scalar_meaning(scalar)),
        Cell::Array(elements) => match inside(literal, "["@, "]"@) {
            None => false,
            Some(body) => items(body).len() == elements@.len() && forall|k: int|
                0 <= k < elements@.len() ==> meaning(#[trigger] items(body)[k]) == Some(
                    element_meaning(elements@[k]),
                ),
        },
    }
}

/// The literal of a cell stands for the cell.
pub proof fn law_cell_literal_stands_for_its_cell(cell: Cell)
    ensures
        reads_as(cell_literal(cell@), cell),
{
    law_cell_literal_reads_back(cell);
}

/// The literal of a text stands for the text and is read as one literal of a list.
pub proof fn law_text_literal_is_one_item(text: Seq<char>)
    ensures
        one_item(literal_text(text)),
        meaning(literal_text(text)) == Some(Meaning::Text(text)),
{
    let literal = literal_text(text);
    let both = set!['\'', '\\'];
    let body = doubled(text, both);
    let lead: Seq<char> = if text.contains('\\') {
        seq!['E']
    } else {
        Seq::empty()
    };
    assert forall|scan: Scan| !scan.open && scan.depth >= 0 implies #[trigger] scanned(
        scan,
        literal,
    ) == (Scan { current: scan.current + literal, ..scan }) by {
        assert forall|s: Scan| s.open implies #[trigger] scanned(s, body) == (Scan {
            current: s.current + body,
            ..s
        }) by {
            lemma_open_doubled(s, text, both);
        }
        lemma_wrapped(scan, lead, body, Seq::empty());
        assert(literal =~= lead + seq!['\''] + body + seq!['\''] + Seq::<char>::empty());
    }
    law_string_reads_back(text);
    reveal_strlit("NULL");
    reveal_strlit("true");
    reveal_strlit("false");
    reveal_strlit("CAST('");
    lemma_no_lead(literal, "CAST('"@, "' AS UUID)"@);
    lemma_no_lead(literal, "CAST('"@, "' AS BLOB)"@);
    assert("true"@[0] == 't' && "false"@[0] == 'f' && "NULL"@[0] == 'N');
}

/// The numeral of a number is read as one literal of a list, and so is the literal of
/// an absent value.
pub proof fn law_number_is_one_item(value: int)
    ensures
        one_item(decimal_int(value)),
        one_item("NULL"@),
{
    law_integer_reads_back(value);
    assert forall|scan: Scan| !scan.open && scan.depth >= 0 implies #[trigger] scanned(
        scan,
        decimal_int(value),
    ) == (Scan { current: scan.current + decimal_int(value), ..scan }) by {
        lemma_number_item(scan, value);
    }
    law_literal_is_one_item(None);
}

/// What the literals of a list stand for, in order.
pub open spec fn meanings(text: Seq<char>) -> Seq<Option<Meaning>> {
    items(text).map_values(|item: Seq<char>| meaning(item))
}

/// Scalars whose literals are the same stand for the same value, so distinct values of one
/// type have distinct literals.
pub proof fn law_distinct_values_have_distinct_literals(left: Scalar, right: Scalar)
    requires
        scalar_literal(left@) == scalar_literal(right@),
    ensures
        scalar_meaning(left) == scalar_meaning(right),
{
    law_scalar_literal_reads_back(left);
    law_scalar_literal_reads_back(right);
}

} // verus!
