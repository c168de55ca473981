//! Atomic per-table write units for a DuckLake change-data-capture destination.
//!
//! Copy, mutation and truncate inputs are prepared into batches, so that each
//! attempt replays the same SQL and the same replay bookkeeping. Everything is
//! decided here; the host runs statements, moves bytes and reports back.
//!
//! - [`schema`], [`data`] and [`mutation`] model tables, rows and changes.
//! - [`identity`], [`partial_row`], [`normalize`] and [`ordered`] turn the
//!   changes of one batch into statements, and [`equivalence`] states what those
//!   do to a table.
//! - [`recovery_plan`], [`recovery_read`] and [`stored_value`] read back what
//!   partial updates leave out.
//! - [`backlog`], [`batches`] and [`mutation_run`] cut a backlog into batches.
//! - [`transaction`], [`replay`], [`retry`] and [`copy`] apply batches, and
//!   [`resume`] and [`markers`] state what a replay leaves behind.
//! - [`reading`] reads literals, names and lists back, and the modules state by it
//!   what they write.
//! - [`streaming_progress`] names progress tables and remembers frontiers, and
//!   [`frontier`] states what is read from those tables.

pub mod backlog;
pub mod batch_kind;
pub mod batches;
pub mod collect;
pub mod copy;
pub mod data;
pub mod diagnostics;
pub mod equivalence;
pub mod error;
pub mod external;
pub mod fingerprint;
pub mod frontier;
pub mod hooks;
pub mod identity;
pub mod injective;
pub mod key_set;
pub mod literal;
pub mod markers;
pub mod mutation;
pub mod mutation_run;
pub mod normalize;
pub mod ordered;
pub mod partial_row;
pub mod partial_update;
pub mod reading;
pub mod recovery_plan;
pub mod recovery_read;
pub mod replay;
pub mod resume;
pub mod retry;
pub mod rewrite;
pub mod schema;
pub mod sequence;
pub mod staging;
pub mod statements;
pub mod stored_value;
pub mod streaming_progress;
pub mod text;
pub mod transaction;
