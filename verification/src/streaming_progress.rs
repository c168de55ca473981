//! Where streaming batches record replay progress, and what the writer already
//! knows about it.
//!
//! Every streaming batch appends its last sequence key to a progress table in
//! the same transaction as its data, so the durable frontier always matches the
//! committed data. The writer alone advances a table's frontier, so it can
//! remember the frontier that each confirmed commit leaves behind. The durable
//! frontier is read only when the remembered one is unknown: after a restart,
//! after an attempt whose outcome was not confirmed, and after a change of the
//! replay epoch.
//!
//! A host can give each pipeline its own progress table. Batches then keep
//! appending to the shared table too, and frontier reads take the later of both,
//! so moving to a separate table and back both keep the replay position.

use vstd::prelude::*;

use crate::error::{detailed_error, ErrorKind, ErrorView, EtlError};
use crate::schema::{DuckLakeTableName, TableNameView, HELPER_TABLE_PREFIX};
use crate::sequence::EventSequenceKey;
use crate::text::{lower_char, lowered};

verus! {

/// Progress table shared by every pipeline that does not name its own.
pub const SHARED_STREAMING_PROGRESS_TABLE: &'static str = "__etl_streaming_progress";

/// The lake table streaming batches record their replay progress in.
#[derive(Debug, PartialEq)]
pub struct StreamingProgressTable {
    name: String,
}

impl View for StreamingProgressTable {
    type V = Seq<char>;

    closed spec fn view(&self) -> Seq<char> {
        self.name@
    }
}

/// Whether a character may stand in a table suffix.
pub open spec fn suffix_char(character: char) -> bool {
    'a' <= character <= 'z' || '0' <= character <= '9' || character == '_'
}

/// Whether a text may be a table suffix: it is not empty and holds lowercase
/// ASCII letters, digits and underscores alone.
pub open spec fn valid_suffix(suffix: Seq<char>) -> bool {
    &&& suffix.len() > 0
    &&& forall|i: int| 0 <= i < suffix.len() ==> suffix_char(#[trigger] suffix[i])
}

/// The name of a pipeline's own progress table.
pub open spec fn suffixed_name(suffix: Seq<char>) -> Seq<char> {
    SHARED_STREAMING_PROGRESS_TABLE@ + "_"@ + suffix
}

/// The error of a suffix that may not be one.
pub open spec fn invalid_suffix_error(suffix: Seq<char>) -> ErrorView {
    detailed_error(
        ErrorKind::ConfigError,
        "Invalid DuckLake streaming progress table suffix"@,
        "Suffix `"@ + suffix
            + "` must be nonempty lowercase ASCII letters, digits or underscores"@,
    )
}

fn is_valid_suffix(suffix: &str) -> (r: bool)
    ensures
        r == valid_suffix(suffix@),
{
    let mut count: usize = 0;
    for character in iter: suffix.chars()
        invariant
            iter.seq() == suffix@,
            count > 0 <==> iter.index() > 0,
            forall|i: int| 0 <= i < iter.index() ==> suffix_char(#[trigger] suffix@[i]),
    {
        assert(character == suffix@[iter.index()]);
        let valid = ('a' <= character && character <= 'z') || ('0' <= character && character
            <= '9') || character == '_';
        if !valid {
            return false;
        }
        count = 1;
    }
    count > 0
}

impl Clone for StreamingProgressTable {
    fn clone(&self) -> (r: StreamingProgressTable)
        ensures
            r@ == self@,
    {
        StreamingProgressTable { name: self.name.clone() }
    }
}

/// The tables that a batch of a pipeline recording into `name` appends its
/// frontier to: that one first, then the shared one when that is not it.
pub open spec fn written_names(name: Seq<char>) -> Seq<Seq<char>> {
    if name == SHARED_STREAMING_PROGRESS_TABLE@ {
        seq![name]
    } else {
        seq![name, SHARED_STREAMING_PROGRESS_TABLE@]
    }
}

impl StreamingProgressTable {
    /// Returns a pipeline's own table.
    ///
    /// The database folds identifier case, so suffixes that differ only in case
    /// would name one table; lowercase alone is accepted. The name keeps the
    /// reserved prefix that hides helper tables from table discovery.
    pub fn with_suffix(suffix: &str) -> (r: Result<StreamingProgressTable, EtlError>)
        ensures
            match r {
                Ok(table) => valid_suffix(suffix@) && table@ == suffixed_name(suffix@),
                Err(error) => !valid_suffix(suffix@) && error@ == invalid_suffix_error(suffix@),
            },
    {
        if !is_valid_suffix(suffix) {
            let mut detail = "Suffix `".to_owned();
            detail.append(suffix);
            detail.append("` must be nonempty lowercase ASCII letters, digits or underscores");
            return Err(
                EtlError::with_detail(
                    ErrorKind::ConfigError,
                    "Invalid DuckLake streaming progress table suffix",
                    detail,
                ),
            );
        }
        let mut name = SHARED_STREAMING_PROGRESS_TABLE.to_owned();
        name.append("_");
        name.append(suffix);
        Ok(StreamingProgressTable { name })
    }

    /// Returns the unquoted table name.
    pub fn name(&self) -> (r: &str)
        ensures
            r@ == self@,
    {
        self.name.as_str()
    }

    /// Returns the shared table, when this is not that table.
    ///
    /// A pipeline with its own table keeps appending every frontier to the
    /// shared table as well, and never deletes from it.
    pub fn legacy(&self) -> (r: Option<&'static str>)
        ensures
            match r {
                Some(name) => self@ != SHARED_STREAMING_PROGRESS_TABLE@ && name@
                    == SHARED_STREAMING_PROGRESS_TABLE@,
                None => self@ == SHARED_STREAMING_PROGRESS_TABLE@,
            },
    {
        let shared = SHARED_STREAMING_PROGRESS_TABLE.to_owned();
        if self.name == shared {
            None
        } else {
            Some(SHARED_STREAMING_PROGRESS_TABLE)
        }
    }

    /// Returns every table a committed batch appends its frontier to: this one
    /// first, then the shared one when this is not it.
    pub fn written_tables(&self) -> (r: Vec<&str>)
        ensures
            r@.len() == written_names(self@).len(),
            forall|i: int| 0 <= i < r@.len() ==> (#[trigger] r@[i])@ == written_names(self@)[i],
    {
        let mut tables: Vec<&str> = Vec::new();
        tables.push(self.name());
        if let Some(shared) = self.legacy() {
            tables.push(shared);
        }
        tables
    }
}

impl Default for StreamingProgressTable {
    /// Returns the shared table.
    fn default() -> (r: StreamingProgressTable)
        ensures
            r@ == SHARED_STREAMING_PROGRESS_TABLE@,
    {
        StreamingProgressTable { name: SHARED_STREAMING_PROGRESS_TABLE.to_owned() }
    }
}

/// A pipeline's own table is hidden as a helper table, is already in lowercase,
/// and is not the shared table.
pub proof fn law_suffixed_tables_are_lowercase_helpers(suffix: Seq<char>)
    requires
        valid_suffix(suffix),
    ensures
        HELPER_TABLE_PREFIX@.is_prefix_of(suffixed_name(suffix)),
        lowered(suffixed_name(suffix)) == suffixed_name(suffix),
        suffixed_name(suffix) != SHARED_STREAMING_PROGRESS_TABLE@,
{
    reveal_strlit("__etl_streaming_progress");
    reveal_strlit("__etl_");
    reveal_strlit("_");
    let name = suffixed_name(suffix);
    let shared = SHARED_STREAMING_PROGRESS_TABLE@;
    assert(HELPER_TABLE_PREFIX@ =~= name.subrange(0, HELPER_TABLE_PREFIX@.len() as int));
    assert forall|i: int| 0 <= i < name.len() implies lower_char(#[trigger] name[i]) == name[i] by {
        if i >= shared.len() + 1 {
            assert(name[i] == suffix[i - shared.len() - 1]);
            assert(suffix_char(suffix[i - shared.len() - 1]));
        }
    }
    assert(lowered(name) =~= name);
    assert(name.len() > shared.len());
}

/// Pipelines with different suffixes have different tables.
pub proof fn law_suffixes_name_distinct_tables(left: Seq<char>, right: Seq<char>)
    requires
        suffixed_name(left) == suffixed_name(right),
    ensures
        left == right,
{
    let lead = SHARED_STREAMING_PROGRESS_TABLE@ + "_"@;
    assert(suffixed_name(left).skip(lead.len() as int) =~= left);
    assert(suffixed_name(right).skip(lead.len() as int) =~= right);
}

/// One table's durable frontier as the writer last confirmed it.
#[derive(Debug, PartialEq)]
struct KnownFrontier {
    table_name: DuckLakeTableName,
    replay_epoch: String,
    last_sequence_key: Option<EventSequenceKey>,
}

/// A frontier in one replay epoch.
pub struct FrontierView {
    pub replay_epoch: Seq<char>,
    pub last_sequence_key: Option<EventSequenceKey>,
}

/// Durable frontiers this writer confirmed, per destination table.
///
/// An entry is present only while it is certain. It is recorded from a durable
/// read or a confirmed commit, and forgotten before every attempt that could
/// change the frontier, so an attempt that fails, times out or is cancelled
/// leaves the table unknown.
///
/// A cache has one holder. A host that hands it to several tasks shares it behind
/// a lock; that the tasks then see one state rests on that lock.
#[derive(Debug, PartialEq)]
pub struct StreamingProgressCache {
    frontiers: Vec<KnownFrontier>,
}

spec fn holds(frontiers: Seq<KnownFrontier>, table: TableNameView) -> bool {
    exists|i: int| 0 <= i < frontiers.len() && (#[trigger] frontiers[i]).table_name@ == table
}

spec fn slot_of(frontiers: Seq<KnownFrontier>, table: TableNameView) -> int {
    choose|i: int| 0 <= i < frontiers.len() && (#[trigger] frontiers[i]).table_name@ == table
}

/// The confirmed frontier of a table in an epoch. Nothing means unknown.
pub open spec fn known_frontier(
    frontiers: Map<TableNameView, FrontierView>,
    table: TableNameView,
    replay_epoch: Seq<char>,
) -> Option<Option<EventSequenceKey>> {
    if frontiers.dom().contains(table) && frontiers[table].replay_epoch == replay_epoch {
        Some(frontiers[table].last_sequence_key)
    } else {
        None
    }
}

impl View for StreamingProgressCache {
    type V = Map<TableNameView, FrontierView>;

    closed spec fn view(&self) -> Map<TableNameView, FrontierView> {
        Map::new(
            |t: TableNameView| holds(self.frontiers@, t),
            |t: TableNameView|
                FrontierView {
                    replay_epoch: self.frontiers@[slot_of(self.frontiers@, t)].replay_epoch@,
                    last_sequence_key: self.frontiers@[slot_of(
                        self.frontiers@,
                        t,
                    )].last_sequence_key,
                },
        )
    }
}

impl StreamingProgressCache {
    /// Each table has one entry at most.
    pub closed spec fn wf(&self) -> bool {
        forall|i: int, j: int|
            0 <= i < j < self.frontiers@.len() ==> (#[trigger] self.frontiers@[i]).table_name@ != (
            #[trigger] self.frontiers@[j]).table_name@
    }

    /// Creates a cache that knows nothing.
    pub fn new() -> (r: StreamingProgressCache)
        ensures
            r.wf(),
            r@ == Map::<TableNameView, FrontierView>::empty(),
    {
        let r = StreamingProgressCache { frontiers: Vec::new() };
        assert(r@ =~= Map::<TableNameView, FrontierView>::empty());
        r
    }

    fn position(&self, table_name: &DuckLakeTableName) -> (r: Option<usize>)
        ensures
            match r {
                Some(i) => i < self.frontiers@.len() && self.frontiers@[i as int].table_name@
                    == table_name@,
                None => !holds(self.frontiers@, table_name@),
            },
    {
        for i in 0..self.frontiers.len()
            invariant
                forall|j: int|
                    0 <= j < i ==> (#[trigger] self.frontiers@[j]).table_name@ != table_name@,
        {
            if self.frontiers[i].table_name.same_as(table_name) {
                return Some(i);
            }
        }
        None
    }

    /// Returns the confirmed frontier of a table in an epoch.
    ///
    /// The outer [`None`] means unknown; an inner one means that the table has
    /// no progress in that epoch yet.
    pub fn get(&self, table_name: &DuckLakeTableName, replay_epoch: &str) -> (r: Option<
        Option<EventSequenceKey>,
    >)
        requires
            self.wf(),
        ensures
            r == known_frontier(self@, table_name@, replay_epoch@),
    {
        match self.position(table_name) {
            None => None,
            Some(i) => {
                proof {
                    assert(holds(self.frontiers@, table_name@));
                    let slot = slot_of(self.frontiers@, table_name@);
                    assert(slot == i);
                }
                let epoch = replay_epoch.to_owned();
                if self.frontiers[i].replay_epoch == epoch {
                    Some(self.frontiers[i].last_sequence_key)
                } else {
                    None
                }
            },
        }
    }

    /// Records a frontier read from the lake or left behind by a confirmed
    /// commit.
    pub fn record(
        &mut self,
        table_name: &DuckLakeTableName,
        replay_epoch: &str,
        last_sequence_key: Option<EventSequenceKey>,
    )
        requires
            old(self).wf(),
        ensures
            final(self).wf(),
            final(self)@ == old(self)@.insert(
                table_name@,
                FrontierView { replay_epoch: replay_epoch@, last_sequence_key },
            ),
    {
        let ghost before = self.frontiers@;
        let entry = KnownFrontier {
            table_name: table_name.clone(),
            replay_epoch: replay_epoch.to_owned(),
            last_sequence_key,
        };
        let ghost target = old(self)@.insert(
            table_name@,
            FrontierView { replay_epoch: replay_epoch@, last_sequence_key },
        );
        match self.position(table_name) {
            Some(i) => {
                self.frontiers[i] = entry;
                proof {
                    let after = self.frontiers@;
                    assert forall|t: TableNameView| holds(after, t) <==> holds(before, t) by {
                        if holds(before, t) {
                            let k = slot_of(before, t);
                            assert(after[k].table_name@ == t);
                        }
                        if holds(after, t) {
                            let k = slot_of(after, t);
                            assert(before[k].table_name@ == t);
                        }
                    }
                    assert(holds(after, table_name@)) by {
                        assert(after[i as int].table_name@ == table_name@);
                    }
                    assert forall|t: TableNameView| holds(after, t) implies slot_of(after, t)
                        == slot_of(before, t) by {
                        assert(after[slot_of(after, t)].table_name@ == t);
                        assert(before[slot_of(before, t)].table_name@ == t);
                        assert(before[slot_of(after, t)].table_name@ == t);
                    }
                    assert(slot_of(after, table_name@) == i);
                    assert(self@ =~= target);
                }
            },
            None => {
                self.frontiers.push(entry);
                proof {
                    let after = self.frontiers@;
                    let last = before.len() as int;
                    assert(after[last].table_name@ == table_name@);
                    assert forall|t: TableNameView| holds(after, t) <==> holds(before, t) || t
                        == table_name@ by {
                        if holds(before, t) {
                            let k = slot_of(before, t);
                            assert(after[k].table_name@ == t);
                        }
                        if holds(after, t) {
                            let k = slot_of(after, t);
                            if k < last {
                                assert(before[k].table_name@ == t);
                            }
                        }
                    }
                    assert forall|j: int| 0 <= j < last implies (#[trigger] after[j]).table_name@
                        != table_name@ by {
                        assert(before[j] == after[j]);
                    }
                    assert forall|t: TableNameView| holds(before, t) implies slot_of(after, t)
                        == slot_of(before, t) by {
                        assert(holds(after, t));
                        let k = slot_of(before, t);
                        assert(after[k].table_name@ == t);
                        assert(after[slot_of(after, t)].table_name@ == t);
                    }
                    assert(slot_of(after, table_name@) == last);
                    assert(self@ =~= target);
                }
            },
        }
    }

    /// Forgets the frontier of a table until the lake is read again.
    pub fn forget(&mut self, table_name: &DuckLakeTableName)
        requires
            old(self).wf(),
        ensures
            final(self).wf(),
            final(self)@ == old(self)@.remove(table_name@),
    {
        let ghost before = self.frontiers@;
        match self.position(table_name) {
            Some(i) => {
                let _ = self.frontiers.remove(i);
                proof {
                    let after = self.frontiers@;
                    assert(after =~= before.remove(i as int));
                    assert forall|t: TableNameView| holds(after, t) <==> holds(before, t) && t
                        != table_name@ by {
                        if holds(after, t) {
                            let k = slot_of(after, t);
                            if k < i {
                                assert(before[k].table_name@ == t);
                            } else {
                                assert(before[k + 1].table_name@ == t);
                            }
                        }
                        if holds(before, t) && t != table_name@ {
                            let k = slot_of(before, t);
                            if k < i {
                                assert(after[k].table_name@ == t);
                            } else {
                                assert(after[k - 1].table_name@ == t);
                            }
                        }
                    }
                    assert forall|t: TableNameView| holds(after, t) implies after[slot_of(after, t)]
                        == before[slot_of(before, t)] by {
                        let k = slot_of(after, t);
                        let origin = if k < i {
                            k
                        } else {
                            k + 1
                        };
                        assert(before[origin].table_name@ == t);
                        assert(before[slot_of(before, t)].table_name@ == t);
                    }
                    assert(self@ =~= old(self)@.remove(table_name@));
                }
            },
            None => {
                assert(self@ =~= old(self)@.remove(table_name@));
            },
        }
    }
}

/// A recorded frontier is known in its own epoch alone, and leaves other tables
/// as they were.
pub proof fn law_recorded_frontier_is_known(
    frontiers: Map<TableNameView, FrontierView>,
    table: TableNameView,
    frontier: FrontierView,
    other: TableNameView,
    epoch: Seq<char>,
)
    ensures
        known_frontier(frontiers.insert(table, frontier), table, frontier.replay_epoch) == Some(
            frontier.last_sequence_key,
        ),
        epoch != frontier.replay_epoch ==> known_frontier(
            frontiers.insert(table, frontier),
            table,
            epoch,
        ) is None,
        other != table ==> known_frontier(frontiers.insert(table, frontier), other, epoch)
            == known_frontier(frontiers, other, epoch),
{
}

/// A forgotten frontier is unknown in every epoch, and other tables stay as they
/// were.
pub proof fn law_forgotten_frontier_is_unknown(
    frontiers: Map<TableNameView, FrontierView>,
    table: TableNameView,
    other: TableNameView,
    epoch: Seq<char>,
)
    ensures
        known_frontier(frontiers.remove(table), table, epoch) is None,
        other != table ==> known_frontier(frontiers.remove(table), other, epoch) == known_frontier(
            frontiers,
            other,
            epoch,
        ),
{
}

/// Forgetting a table once more changes nothing.
pub proof fn law_forgetting_again_changes_nothing(
    frontiers: Map<TableNameView, FrontierView>,
    table: TableNameView,
)
    ensures
        frontiers.remove(table).remove(table) == frontiers.remove(table),
{
    assert(frontiers.remove(table).remove(table) =~= frontiers.remove(table));
}

/// The confirmed frontiers while an attempt on a table runs.
pub open spec fn during_attempt(
    frontiers: Map<TableNameView, FrontierView>,
    table: TableNameView,
) -> Map<TableNameView, FrontierView> {
    frontiers.remove(table)
}

/// The confirmed frontiers once an attempt on a table ended. Nothing is confirmed
/// by a failure.
pub open spec fn after_attempt(
    frontiers: Map<TableNameView, FrontierView>,
    table: TableNameView,
    replay_epoch: Seq<char>,
    confirmed: Option<Option<EventSequenceKey>>,
) -> Map<TableNameView, FrontierView> {
    match confirmed {
        None => frontiers.remove(table),
        Some(last_sequence_key) => frontiers.insert(
            table,
            FrontierView { replay_epoch, last_sequence_key },
        ),
    }
}

/// A table is unknown in every epoch while an attempt on it runs, and stays so
/// after a failure. After a confirmed success the frontier of the attempt is
/// known, in its epoch alone. Other tables stay as they were throughout.
pub proof fn law_frontiers_are_known_only_while_certain(
    frontiers: Map<TableNameView, FrontierView>,
    table: TableNameView,
    attempt_epoch: Seq<char>,
    confirmed: Option<Option<EventSequenceKey>>,
    other: TableNameView,
    epoch: Seq<char>,
)
    ensures
        known_frontier(during_attempt(frontiers, table), table, epoch) is None,
        known_frontier(
            after_attempt(during_attempt(frontiers, table), table, attempt_epoch, confirmed),
            table,
            epoch,
        ) == if epoch == attempt_epoch {
            confirmed
        } else {
            None
        },
        other != table ==> {
            &&& known_frontier(during_attempt(frontiers, table), other, epoch) == known_frontier(
                frontiers,
                other,
                epoch,
            )
            &&& known_frontier(
                after_attempt(during_attempt(frontiers, table), table, attempt_epoch, confirmed),
                other,
                epoch,
            ) == known_frontier(frontiers, other, epoch)
        },
{
}

/// A destination's streaming progress: where batches record it, and which
/// frontiers the writer confirmed.
pub struct StreamingProgress {
    table: StreamingProgressTable,
    cache: StreamingProgressCache,
}

impl StreamingProgress {
    /// The progress table.
    pub closed spec fn table_view(&self) -> Seq<char> {
        self.table@
    }

    /// The confirmed frontiers.
    pub closed spec fn cache_view(&self) -> Map<TableNameView, FrontierView> {
        self.cache@
    }

    /// The cache is well formed.
    pub closed spec fn wf(&self) -> bool {
        self.cache.wf()
    }

    /// Creates the progress of a destination recording into `table`.
    pub fn new(table: StreamingProgressTable) -> (r: StreamingProgress)
        ensures
            r.wf(),
            r.table_view() == table@,
            r.cache_view() == Map::<TableNameView, FrontierView>::empty(),
    {
        StreamingProgress { table, cache: StreamingProgressCache::new() }
    }

    /// Returns the table batches record their progress in.
    pub fn table(&self) -> (r: &StreamingProgressTable)
        ensures
            r@ == self.table_view(),
    {
        &self.table
    }

    /// Returns the frontiers this writer confirmed.
    pub fn cache(&self) -> (r: &StreamingProgressCache)
        requires
            self.wf(),
        ensures
            r.wf(),
            r@ == self.cache_view(),
    {
        &self.cache
    }

    /// Takes in that an attempt on a table starts. Returns the frontier it may
    /// rely on without reading the lake, and forgets it: until the attempt is
    /// confirmed the table is unknown.
    pub fn attempt_started(&mut self, table_name: &DuckLakeTableName, replay_epoch: &str) -> (r:
        Option<Option<EventSequenceKey>>)
        requires
            old(self).wf(),
        ensures
            final(self).wf(),
            final(self).table_view() == old(self).table_view(),
            r == known_frontier(old(self).cache_view(), table_name@, replay_epoch@),
            final(self).cache_view() == during_attempt(old(self).cache_view(), table_name@),
    {
        let known = self.cache.get(table_name, replay_epoch);
        self.cache.forget(table_name);
        known
    }

    /// Takes in how an attempt on a table ended: with the frontier that a
    /// confirmed success left, or with a failure, which leaves the table unknown.
    pub fn attempt_ended(
        &mut self,
        table_name: &DuckLakeTableName,
        replay_epoch: &str,
        confirmed: Option<Option<EventSequenceKey>>,
    )
        requires
            old(self).wf(),
        ensures
            final(self).wf(),
            final(self).table_view() == old(self).table_view(),
            final(self).cache_view() == after_attempt(
                old(self).cache_view(),
                table_name@,
                replay_epoch@,
                confirmed,
            ),
    {
        match confirmed {
            None => self.cache.forget(table_name),
            Some(last_sequence_key) => self.cache.record(
                table_name,
                replay_epoch,
                last_sequence_key,
            ),
        }
    }

    /// Returns the frontiers this writer confirmed, to record or forget one.
    pub fn cache_mut(&mut self) -> (r: &mut StreamingProgressCache)
        requires
            old(self).wf(),
        ensures
            r.wf(),
            r@ == old(self).cache_view(),
            final(self).table_view() == old(self).table_view(),
            final(self).cache_view() == final(r)@,
            final(r).wf() ==> final(self).wf(),
    {
        &mut self.cache
    }
}

/// A suffix is valid exactly when it is not empty and made of the small letters, the
/// digits and the underscore.
pub proof fn law_suffixes_are_small_letters_digits_and_underscores(suffix: Seq<char>)
    ensures
        valid_suffix(suffix) <==> suffix.len() > 0 && forall|i: int|
            0 <= i < suffix.len() ==> "abcdefghijklmnopqrstuvwxyz0123456789_"@.contains(
                #[trigger] suffix[i],
            ),
{
    let alphabet = "abcdefghijklmnopqrstuvwxyz0123456789_"@;
    reveal_strlit("abcdefghijklmnopqrstuvwxyz0123456789_");
    assert forall|c: char| #[trigger] alphabet.contains(c) == suffix_char(c) by {
        if 'a' <= c <= 'z' {
            assert(alphabet[c as int - 'a' as int] == c);
        } else if '0' <= c <= '9' {
            assert(alphabet[c as int - '0' as int + 26] == c);
        } else if c == '_' {
            assert(alphabet[36] == c);
        }
        if alphabet.contains(c) {
            let i = choose|i: int| 0 <= i < alphabet.len() && alphabet[i] == c;
            assert(suffix_char(alphabet[i]));
        }
    }
    assert forall|i: int| 0 <= i < suffix.len() implies #[trigger] suffix_char(suffix[i])
        == alphabet.contains(suffix[i]) by {}
}

/// A suffix that is not valid is refused by an error that quotes it.
pub proof fn law_refused_suffixes_are_quoted(suffix: Seq<char>)
    ensures
        invalid_suffix_error(suffix).kind is ConfigError,
        invalid_suffix_error(suffix).description
            == "Invalid DuckLake streaming progress table suffix"@,
        invalid_suffix_error(suffix).detail == Some(
            "Suffix `"@ + suffix
                + "` must be nonempty lowercase ASCII letters, digits or underscores"@,
        ),
        suffixed_name(suffix) == "__etl_streaming_progress"@ + "_"@ + suffix,
{
}

} // verus!
