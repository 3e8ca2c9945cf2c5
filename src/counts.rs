use vstd::prelude::*;

use crate::tracker_stat::TrackerStat;

verus! {

/// A community (guild) in which counters are kept.
pub type DiscordGuildId = u64;

/// A user to whom counter totals are attributed, or who changes them.
pub type DiscordUserId = u64;

/// A point in time, in microseconds since the Unix epoch.
pub type Timestamp = i64;

/// The key of a counter: what is counted, where, and for whom.
pub type CountKey = (TrackerStat, DiscordGuildId, DiscordUserId);

/// A requested change of one counter: the signed delta `total` applied to
/// `target`'s counter by `updater`.
#[derive(Debug, Clone, PartialEq, Eq)]
pub struct NewTrackerCountChange {
    pub stat: TrackerStat,
    pub guild_id: DiscordGuildId,
    pub updater: DiscordUserId,
    pub target: DiscordUserId,
    pub total: i128,
    pub note: Option<String>,
}

/// An entry of the ledger: a change together with the time it was recorded.
#[derive(Debug, Clone, PartialEq, Eq)]
pub struct TrackerCountChange {
    pub created: Timestamp,
    pub change: NewTrackerCountChange,
}

/// The current total of one counter.
#[derive(Debug, Copy, Clone, PartialEq, Eq, Structural)]
pub struct TrackerCount {
    pub id: i64,
    pub created: Timestamp,
    pub updated: Timestamp,
    pub stat: TrackerStat,
    pub guild_id: DiscordGuildId,
    pub user_id: DiscordUserId,
    pub total: i128,
}

/// Why a change could not be written. Nothing is written when one of these is
/// returned.
#[derive(Debug, Copy, Clone, PartialEq, Eq, Structural)]
pub enum AdjustmentError {
    /// The ledger cannot take another entry.
    LedgerWriteFailed,
    /// The aggregate row cannot be created or cannot hold the new total.
    AggregateWriteFailed,
}

/// `total + delta`, but never below zero.
pub open spec fn floored(total: int, delta: int) -> int {
    if total + delta < 0 {
        0
    } else {
        total + delta
    }
}

/// Applies the deltas in order, each one floored at zero, starting from `start`.
pub open spec fn floor_fold(start: int, deltas: Seq<int>) -> int
    decreases deltas.len(),
{
    if deltas.len() == 0 {
        start
    } else {
        floored(floor_fold(start, deltas.drop_last()), deltas.last())
    }
}

pub open spec fn row_key(row: TrackerCount) -> CountKey {
    (row.stat, row.guild_id, row.user_id)
}

pub open spec fn change_key(change: NewTrackerCountChange) -> CountKey {
    (change.stat, change.guild_id, change.target)
}

/// The row of `rows` that holds the counter `key`.
pub open spec fn row_of(rows: Seq<TrackerCount>, key: CountKey) -> Option<TrackerCount>
    decreases rows.len(),
{
    if rows.len() == 0 {
        None
    } else if row_key(rows.last()) == key {
        Some(rows.last())
    } else {
        row_of(rows.drop_last(), key)
    }
}

/// The current total of the counter `key`: zero where it has no row.
pub open spec fn total_of(rows: Seq<TrackerCount>, key: CountKey) -> int {
    match row_of(rows, key) {
        Some(row) => row.total as int,
        None => 0,
    }
}

/// The deltas that the ledger records for the counter `key`, in order.
pub open spec fn deltas_of(ledger: Seq<TrackerCountChange>, key: CountKey) -> Seq<int>
    decreases ledger.len(),
{
    if ledger.len() == 0 {
        Seq::empty()
    } else if change_key(ledger.last().change) == key {
        deltas_of(ledger.drop_last(), key).push(ledger.last().change.total as int)
    } else {
        deltas_of(ledger.drop_last(), key)
    }
}

/// The total of the counter `key` obtained by replaying the ledger from the start.
pub open spec fn replay(ledger: Seq<TrackerCountChange>, key: CountKey) -> int {
    floor_fold(0, deltas_of(ledger, key))
}

/// Keys never repeat among the rows.
pub open spec fn keys_unique(rows: Seq<TrackerCount>) -> bool {
    forall|i: int, j: int|
        0 <= i < j < rows.len() ==> row_key(#[trigger] rows[i]) != row_key(#[trigger] rows[j])
}

/// Pushing an entry onto the ledger moves only the replayed total of its own key.
pub proof fn lemma_replay_push(ledger: Seq<TrackerCountChange>, e: TrackerCountChange, key: CountKey)
    ensures
        replay(ledger.push(e), key) == if change_key(e.change) == key {
            floored(replay(ledger, key), e.change.total as int)
        } else {
            replay(ledger, key)
        },
{
    assert(ledger.push(e).drop_last() =~= ledger);
    if change_key(e.change) == key {
        assert(deltas_of(ledger.push(e), key).drop_last() =~= deltas_of(ledger, key));
    }
}

/// The row that `row_of` finds holds the key it was asked for.
pub proof fn lemma_row_of_key(rows: Seq<TrackerCount>, key: CountKey)
    ensures
        row_of(rows, key) matches Some(row) ==> row_key(row) == key,
    decreases rows.len(),
{
    if rows.len() > 0 {
        lemma_row_of_key(rows.drop_last(), key);
    }
}

/// Where no row holds `key`, `row_of` finds none.
pub proof fn lemma_row_of_none(rows: Seq<TrackerCount>, key: CountKey)
    requires
        forall|i: int| 0 <= i < rows.len() ==> row_key(#[trigger] rows[i]) != key,
    ensures
        row_of(rows, key) is None,
    decreases rows.len(),
{
    if rows.len() > 0 {
        lemma_row_of_none(rows.drop_last(), key);
    }
}

/// With unique keys, `row_of` finds the row that holds the key.
pub proof fn lemma_row_of_at(rows: Seq<TrackerCount>, i: int)
    requires
        keys_unique(rows),
        0 <= i < rows.len(),
    ensures
        row_of(rows, row_key(rows[i])) == Some(rows[i]),
    decreases rows.len(),
{
    if i < rows.len() - 1 {
        assert(row_key(rows[i]) != row_key(rows.last()));
        lemma_row_of_at(rows.drop_last(), i);
    }
}

/// Replacing a row by one with the same key changes `row_of` for that key only.
pub proof fn lemma_row_of_update(rows: Seq<TrackerCount>, i: int, row: TrackerCount, key: CountKey)
    requires
        0 <= i < rows.len(),
        row_key(row) == row_key(rows[i]),
        keys_unique(rows),
    ensures
        row_of(rows.update(i, row), key) == if row_key(row) == key {
            Some(row)
        } else {
            row_of(rows, key)
        },
    decreases rows.len(),
{
    let updated = rows.update(i, row);
    if i == rows.len() - 1 {
        assert(updated.drop_last() =~= rows.drop_last());
    } else {
        assert(updated.drop_last() =~= rows.drop_last().update(i, row));
        assert(row_key(rows[i]) != row_key(rows.last()));
        lemma_row_of_update(rows.drop_last(), i, row, key);
    }
}

/// Pushing a row makes it the row of its key and leaves the other keys alone.
pub proof fn lemma_row_of_push(rows: Seq<TrackerCount>, row: TrackerCount, key: CountKey)
    ensures
        row_of(rows.push(row), key) == if row_key(row) == key {
            Some(row)
        } else {
            row_of(rows, key)
        },
{
    assert(rows.push(row).drop_last() =~= rows);
}

} // verus!
