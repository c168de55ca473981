//! Kinds of atomic table batches.

use vstd::prelude::*;

verus! {

/// Atomic batch kinds used by replay bookkeeping.
#[derive(Clone, Copy, Debug, PartialEq, Eq, Structural)]
pub enum DuckLakeTableBatchKind {
    Copy,
    CopyComplete,
    Mutation,
    Truncate,
}

impl DuckLakeTableBatchKind {
    /// Whether batches of this kind belong to the initial copy.
    pub open spec fn is_copy(self) -> bool {
        self is Copy || self is CopyComplete
    }

    /// The persisted label of this kind.
    pub open spec fn label(self) -> Seq<char> {
        match self {
            DuckLakeTableBatchKind::Copy => "copy"@,
            DuckLakeTableBatchKind::CopyComplete => "copy_complete"@,
            DuckLakeTableBatchKind::Mutation => "mutation"@,
            DuckLakeTableBatchKind::Truncate => "truncate"@,
        }
    }

    /// Returns the persisted label of this kind.
    pub fn as_str(self) -> (r: &'static str)
        ensures
            r@ == self.label(),
    {
        match self {
            DuckLakeTableBatchKind::Copy => "copy",
            DuckLakeTableBatchKind::CopyComplete => "copy_complete",
            DuckLakeTableBatchKind::Mutation => "mutation",
            DuckLakeTableBatchKind::Truncate => "truncate",
        }
    }
}

/// Kinds are told apart by their persisted labels, none of which holds a colon.
pub proof fn law_labels_tell_kinds_apart(
    left: DuckLakeTableBatchKind,
    right: DuckLakeTableBatchKind,
)
    ensures
        left.label() == right.label() <==> left == right,
        !left.label().contains(':'),
{
    reveal_strlit("copy");
    reveal_strlit("copy_complete");
    reveal_strlit("mutation");
    reveal_strlit("truncate");
    if left != right {
        assert(left.label().len() != right.label().len() || left.label()[0] != right.label()[0]);
    }
}

} // verus!
