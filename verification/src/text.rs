//! Text building blocks shared by every statement and identifier the crate renders.

use vstd::prelude::*;

verus! {

/// `String::push` appends one character to the end of the string.
pub assume_specification[ String::push ](text: &mut String, character: char)
    ensures
        final(text)@ == old(text)@.push(character),
;

/// The contents of a list of strings.
pub open spec fn texts(strings: Seq<String>) -> Seq<Seq<char>> {
    strings.map_values(|s: String| s@)
}

/// The parts in order, with `separator` between neighbours.
pub open spec fn joined(parts: Seq<Seq<char>>, separator: Seq<char>) -> Seq<char>
    decreases parts.len(),
{
    if parts.len() == 0 {
        Seq::empty()
    } else if parts.len() == 1 {
        parts[0]
    } else {
        joined(parts.drop_last(), separator) + separator + parts.last()
    }
}

/// Joins `parts` with `separator` between neighbours.
pub fn join_texts(parts: &Vec<String>, separator: &str) -> (r: String)
    ensures
        r@ == joined(texts(parts@), separator@),
{
    let mut text = String::new();
    let ghost all = texts(parts@);
    assert(all.take(0) =~= Seq::<Seq<char>>::empty());
    for i in 0..parts.len()
        invariant
            all == texts(parts@),
            text@ == joined(all.take(i as int), separator@),
    {
        if i > 0 {
            text.append(separator);
        }
        text.append(parts[i].as_str());
        proof {
            let shorter = all.take(i as int);
            let longer = all.take(i + 1);
            assert(longer.drop_last() =~= shorter);
            assert(longer.last() == parts@[i as int]@);
            if i == 0 {
                assert(text@ =~= longer[0]);
            }
        }
    }
    assert(all.take(parts.len() as int) =~= all);
    text
}

/// The characters of `text` in order, each one in `marked` written twice.
pub open spec fn doubled(text: Seq<char>, marked: Set<char>) -> Seq<char>
    decreases text.len(),
{
    if text.len() == 0 {
        Seq::empty()
    } else if marked.contains(text.last()) {
        doubled(text.drop_last(), marked).push(text.last()).push(text.last())
    } else {
        doubled(text.drop_last(), marked).push(text.last())
    }
}

/// The identifier between double quotes, with inner double quotes written twice.
pub open spec fn quoted(name: Seq<char>) -> Seq<char> {
    seq!['"'] + doubled(name, set!['"']) + seq!['"']
}

/// Renders a quoted SQL identifier.
pub fn quote_identifier(name: &str) -> (r: String)
    ensures
        r@ == quoted(name@),
{
    let mut text = String::new();
    text.push('"');
    let ghost marked: Set<char> = set!['"'];
    let ghost lead: Seq<char> = seq!['"'];
    proof {
        assert(name@.take(0) =~= Seq::<char>::empty());
        assert(text@ =~= lead + doubled(name@.take(0), marked));
    }
    for character in iter: name.chars()
        invariant
            iter.seq() == name@,
            marked == set!['"'],
            lead == seq!['"'],
            text@ == lead + doubled(name@.take(iter.index()), marked),
    {
        let ghost before = name@.take(iter.index());
        let ghost after = name@.take(iter.index() + 1);
        let ghost held = text@;
        if character == '"' {
            text.push('"');
        }
        text.push(character);
        proof {
            assert(after.drop_last() =~= before);
            assert(after.last() == character);
            assert(text@ =~= lead + doubled(after, marked));
        }
    }
    assert(name@.take(name@.len() as int) =~= name@);
    text.push('"');
    assert(text@ =~= quoted(name@));
    text
}

/// The lowercase form of an ASCII letter; every other character is itself.
pub open spec fn lower_char(character: char) -> char {
    if 'A' <= character <= 'Z' {
        (character as int + 32) as char
    } else {
        character
    }
}

/// The text with every ASCII letter in lowercase.
pub open spec fn lowered(text: Seq<char>) -> Seq<char> {
    text.map_values(|c: char| lower_char(c))
}

/// Lowercases the ASCII letters of `text`.
pub fn lower_ascii(text: &str) -> (r: String)
    ensures
        r@ == lowered(text@),
{
    let mut lower = String::new();
    for character in iter: text.chars()
        invariant
            iter.seq() == text@,
            lower@ == lowered(text@.take(iter.index())),
    {
        let ghost index = iter.index();
        let folded = if 'A' <= character && character <= 'Z' {
            ((character as u8) + 32u8) as char
        } else {
            character
        };
        lower.push(folded);
        proof {
            assert(folded == lower_char(text@[index]));
            assert(lower@ =~= lowered(text@.take(index + 1)));
        }
    }
    assert(text@.take(text@.len() as int) =~= text@);
    lower
}

/// The character for a digit value below sixteen, in lowercase hexadecimal.
pub open spec fn digit_char(value: nat) -> char {
    if value < 10 {
        (48 + value) as char
    } else {
        (87 + value) as char
    }
}

fn digit(value: u8) -> (r: char)
    requires
        value < 16,
    ensures
        r == digit_char(value as nat),
{
    if value < 10 {
        (48u8 + value) as char
    } else {
        (87u8 + value) as char
    }
}

/// The decimal numeral of a natural number, without leading zeros.
pub open spec fn decimal(value: nat) -> Seq<char>
    decreases value,
{
    if value < 10 {
        seq![digit_char(value)]
    } else {
        decimal(value / 10).push(digit_char(value % 10))
    }
}

/// The decimal numeral of an integer, with a leading `-` when negative.
pub open spec fn decimal_int(value: int) -> Seq<char> {
    if value < 0 {
        seq!['-'] + decimal((-value) as nat)
    } else {
        decimal(value as nat)
    }
}

fn push_decimal(text: &mut String, value: u64)
    ensures
        final(text)@ == old(text)@ + decimal(value as nat),
    decreases value,
{
    if value >= 10 {
        push_decimal(text, value / 10);
    }
    text.push(digit((value % 10) as u8));
    proof {
        assert(text@ =~= old(text)@ + decimal(value as nat));
    }
}

/// Renders an unsigned integer in decimal.
pub fn decimal_u64(value: u64) -> (r: String)
    ensures
        r@ == decimal(value as nat),
{
    let mut text = String::new();
    push_decimal(&mut text, value);
    assert(text@ =~= decimal(value as nat));
    text
}

/// Renders a signed integer in decimal.
pub fn decimal_i64(value: i64) -> (r: String)
    ensures
        r@ == decimal_int(value as int),
{
    let mut text = String::new();
    if value < 0 {
        text.push('-');
        let magnitude: u64 = (-(value as i128)) as u64;
        push_decimal(&mut text, magnitude);
        assert(text@ =~= decimal_int(value as int));
    } else {
        push_decimal(&mut text, value as u64);
        assert(text@ =~= decimal_int(value as int));
    }
    text
}

/// The lowest `width` hexadecimal digits of a natural number.
pub open spec fn hex(value: nat, width: nat) -> Seq<char>
    decreases width,
{
    if width == 0 {
        Seq::empty()
    } else {
        hex(value / 16, (width - 1) as nat).push(digit_char(value % 16))
    }
}

/// How many numbers that many hexadecimal digits tell apart.
pub open spec fn hex_span(width: nat) -> nat
    decreases width,
{
    if width == 0 {
        1
    } else {
        16 * hex_span((width - 1) as nat)
    }
}

/// Digits of any width tell numbers apart.
pub proof fn lemma_hex_span_positive(width: nat)
    ensures
        hex_span(width) > 0,
    decreases width,
{
    if width > 0 {
        lemma_hex_span_positive((width - 1) as nat);
    }
}

/// As many digits are written as the width says.
pub proof fn lemma_hex_length(value: nat, width: nat)
    ensures
        hex(value, width).len() == width,
    decreases width,
{
    if width > 0 {
        lemma_hex_length(value / 16, (width - 1) as nat);
    }
}

fn push_hex(text: &mut String, value: u128, width: u8)
    ensures
        final(text)@ == old(text)@ + hex(value as nat, width as nat),
    decreases width,
{
    if width > 0 {
        push_hex(text, value / 16, width - 1);
        text.push(digit((value % 16) as u8));
    }
    assert(text@ =~= old(text)@ + hex(value as nat, width as nat));
}

/// Renders the lowest `width` hexadecimal digits, in lowercase and zero padded.
pub fn fixed_hex(value: u128, width: u8) -> (r: String)
    ensures
        r@ == hex(value as nat, width as nat),
{
    let mut text = String::new();
    push_hex(&mut text, value, width);
    assert(text@ =~= hex(value as nat, width as nat));
    text
}

/// How long texts are that are joined by a separator.
pub open spec fn joined_len(parts: Seq<Seq<char>>, separator: Seq<char>) -> nat
    decreases parts.len(),
{
    if parts.len() == 0 {
        0
    } else if parts.len() == 1 {
        parts[0].len()
    } else {
        joined_len(parts.drop_last(), separator) + separator.len() + parts.last().len()
    }
}

/// Joined texts stand in order: up to any of them stand the earlier ones, and behind it,
/// unless it is the last one, the separator and the later ones.
pub proof fn law_joined_texts_stand_in_order(
    parts: Seq<Seq<char>>,
    separator: Seq<char>,
    index: int,
)
    requires
        0 <= index < parts.len(),
    ensures
        exists|lead: Seq<char>, rest: Seq<char>|
            {
                &&& joined(parts, separator) == #[trigger] (lead + parts[index] + rest)
                &&& index == 0 ==> lead.len() == 0
                &&& index > 0 ==> lead == joined(parts.take(index), separator) + separator
                &&& index == parts.len() - 1 ==> rest.len() == 0
                &&& index < parts.len() - 1 ==> separator.is_prefix_of(rest)
            },
    decreases parts.len(),
{
    let all = joined(parts, separator);
    let shorter = parts.drop_last();
    if index == parts.len() - 1 {
        let lead = if index == 0 {
            Seq::<char>::empty()
        } else {
            joined(shorter, separator) + separator
        };
        assert(parts.take(index) =~= shorter);
        assert(all =~= lead + parts[index] + Seq::<char>::empty());
    } else {
        law_joined_texts_stand_in_order(shorter, separator, index);
        assert(shorter[index] == parts[index]);
        let (lead, rest) = choose|lead: Seq<char>, rest: Seq<char>|
            {
                &&& joined(shorter, separator) == #[trigger] (lead + shorter[index] + rest)
                &&& index == 0 ==> lead.len() == 0
                &&& index > 0 ==> lead == joined(shorter.take(index), separator) + separator
                &&& index == shorter.len() - 1 ==> rest.len() == 0
                &&& index < shorter.len() - 1 ==> separator.is_prefix_of(rest)
            };
        let longer = rest + separator + parts.last();
        assert(shorter.take(index) =~= parts.take(index));
        assert(all =~= lead + parts[index] + longer);
        if index < shorter.len() - 1 {
            assert(longer.subrange(0, separator.len() as int) =~= rest.subrange(
                0,
                separator.len() as int,
            ));
        } else {
            assert(longer.subrange(0, separator.len() as int) =~= separator);
        }
    }
}

/// Joined texts are as long as the texts and the separators between them.
pub proof fn law_joined_texts_add_nothing(parts: Seq<Seq<char>>, separator: Seq<char>)
    ensures
        joined(parts, separator).len() == joined_len(parts, separator),
    decreases parts.len(),
{
    if parts.len() > 1 {
        law_joined_texts_add_nothing(parts.drop_last(), separator);
    }
}

} // verus!
