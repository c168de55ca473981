//! Failure diagnostics, with row values left out unless the host asks for them.

use vstd::prelude::*;

verus! {

/// Whether diagnostics carry the original error text and SQL, which may hold
/// row values.
pub const QUERY_ERROR_DETAILS: bool = false;

/// What a log line says of a failure.
pub open spec fn log_detail(error: Seq<char>, details: bool) -> Seq<char> {
    if details {
        error
    } else {
        "query error details disabled"@
    }
}

/// Returns the original error text, unchanged, when details are enabled.
pub fn query_log_detail(error: &str, details: bool) -> (r: String)
    ensures
        r@ == log_detail(error@, details),
{
    if details {
        error.to_owned()
    } else {
        "query error details disabled".to_owned()
    }
}

/// What the failure of a statement that carries row values says.
pub open spec fn sensitive_text(error: Seq<char>, sql: Seq<char>, details: bool) -> Seq<char> {
    if details {
        error + "; SQL: "@ + sql
    } else {
        "DuckDB query failed; error message omitted because it may contain row values"@
    }
}

/// Describes the failure of a statement that carries row values.
pub fn sensitive_query_error(error: &str, sql: &str, details: bool) -> (r: String)
    ensures
        r@ == sensitive_text(error@, sql@, details),
{
    if details {
        let mut text = error.to_owned();
        text.append("; SQL: ");
        text.append(sql);
        text
    } else {
        "DuckDB query failed; error message omitted because it may contain row values".to_owned()
    }
}

/// What the database says of a query that was interrupted.
pub const INTERRUPT_MESSAGE: &'static str = "INTERRUPT Error: Interrupted";

/// Whether a text holds another one.
pub open spec fn holds_text(text: Seq<char>, part: Seq<char>) -> bool {
    exists|at: int| 0 <= at && at + part.len() <= text.len() && part_at(text, part, at)
}

/// Whether a text holds another one at a position.
pub open spec fn part_at(text: Seq<char>, part: Seq<char>, at: int) -> bool {
    text.subrange(at, at + part.len()) == part
}

fn characters(text: &str) -> (r: Vec<char>)
    ensures
        r@ == text@,
{
    let mut found: Vec<char> = Vec::new();
    for character in iter: text.chars()
        invariant
            iter.seq() == text@,
            found@ == text@.take(iter.index()),
    {
        found.push(character);
        assert(found@ =~= text@.take(iter.index() + 1));
    }
    assert(text@.take(text@.len() as int) =~= text@);
    found
}

/// Returns whether a database error is the one of an interrupted query.
pub fn is_duckdb_interrupt_error(error: &str) -> (r: bool)
    ensures
        r == holds_text(error@, INTERRUPT_MESSAGE@),
{
    let text = characters(error);
    let part = characters(INTERRUPT_MESSAGE);
    proof {
        reveal_strlit("INTERRUPT Error: Interrupted");
    }
    let total: usize = text.len();
    let width: usize = part.len();
    if width > total {
        return false;
    }
    let mut at: usize = 0;
    while at <= total - width
        invariant
            total == text@.len(),
            width == part@.len(),
            width <= total,
            at <= total - width + 1,
            part@.len() > 0,
            text@ == error@,
            part@ == INTERRUPT_MESSAGE@,
            forall|k: int|
                0 <= k < at && k + part@.len() <= text@.len() ==> !#[trigger] part_at(
                    text@,
                    part@,
                    k,
                ),
        decreases total - width + 1 - at,
    {
        let mut same: usize = 0;
        while same < width && text[at + same] == part[same]
            invariant
                total == text@.len(),
                width == part@.len(),
                at + width <= total,
                same <= width,
                forall|k: int| 0 <= k < same ==> text@[at + k] == #[trigger] part@[k],
            decreases width - same,
        {
            same = same + 1;
        }
        let ghost whole = text@.subrange(at as int, at + part@.len());
        if same == width {
            assert(whole =~= part@);
            assert(part_at(text@, part@, at as int));
            return true;
        }
        assert(whole[same as int] != part@[same as int]);
        at = at + 1;
    }
    false
}

/// With details a log line is the error as it is, and the failure of a statement that
/// carries row values holds the error and the statement, in this order. Without them both
/// are the same whatever the error and the statement.
pub proof fn law_details_are_said_on_request_alone(
    error: Seq<char>,
    sql: Seq<char>,
    other_error: Seq<char>,
    other_sql: Seq<char>,
)
    ensures
        log_detail(error, true) == error,
        log_detail(error, false) == log_detail(other_error, false),
        error.is_prefix_of(sensitive_text(error, sql, true)),
        sql.is_suffix_of(sensitive_text(error, sql, true)),
        sensitive_text(error, sql, true).len() == error.len() + 7 + sql.len(),
        sensitive_text(error, sql, false) == sensitive_text(other_error, other_sql, false),
{
    let text = sensitive_text(error, sql, true);
    reveal_strlit("; SQL: ");
    assert(text.subrange(0, error.len() as int) =~= error);
    assert(text.subrange(text.len() - sql.len(), text.len() as int) =~= sql);
}

/// A text holds another one exactly when it is that one with something in front of it and
/// something behind it.
pub proof fn law_held_text_stands_inside(text: Seq<char>, part: Seq<char>)
    ensures
        holds_text(text, part) <==> exists|lead: Seq<char>, tail: Seq<char>|
            text == #[trigger] (lead + part + tail),
{
    if holds_text(text, part) {
        let at = choose|at: int|
            0 <= at && at + part.len() <= text.len() && part_at(text, part, at);
        let lead = text.take(at);
        let tail = text.skip(at + part.len());
        assert(text =~= lead + text.subrange(at, at + part.len()) + tail);
        assert(text == lead + part + tail);
    }
    if exists|lead: Seq<char>, tail: Seq<char>| text == #[trigger] (lead + part + tail) {
        let (lead, tail) = choose|lead: Seq<char>, tail: Seq<char>|
            text == #[trigger] (lead + part + tail);
        assert(text.subrange(lead.len() as int, (lead.len() + part.len()) as int) =~= part);
        assert(part_at(text, part, lead.len() as int));
    }
}

} // verus!
