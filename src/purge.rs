use vstd::prelude::*;

use crate::counts::{
    change_key, floored, keys_unique, lemma_replay_push, lemma_row_of_none, replay, row_key, row_of,
    CountKey, DiscordUserId, NewTrackerCountChange, Timestamp, TrackerCount, TrackerCountChange,
};
use crate::ranking::ids_increasing;

verus! {

/// The rows that a purge of `ids` keeps, in their order.
pub open spec fn kept_rows(rows: Seq<TrackerCount>, ids: Seq<i64>) -> Seq<TrackerCount>
    decreases rows.len(),
{
    if rows.len() == 0 {
        rows
    } else if ids.contains(rows.last().id) {
        kept_rows(rows.drop_last(), ids)
    } else {
        kept_rows(rows.drop_last(), ids).push(rows.last())
    }
}

/// The ledger entry that closes a purged row: its total taken back, by `deleter`.
pub open spec fn compensation(row: TrackerCount, deleter: DiscordUserId, now: Timestamp) -> TrackerCountChange {
    TrackerCountChange {
        created: now,
        change: NewTrackerCountChange {
            stat: row.stat,
            guild_id: row.guild_id,
            updater: deleter,
            target: row.user_id,
            total: (-row.total) as i128,
            note: None,
        },
    }
}

/// The entries that a purge of `ids` appends to the ledger: one for each
/// purged row, in the rows' order.
pub open spec fn compensations(
    rows: Seq<TrackerCount>,
    ids: Seq<i64>,
    deleter: DiscordUserId,
    now: Timestamp,
) -> Seq<TrackerCountChange>
    decreases rows.len(),
{
    if rows.len() == 0 {
        Seq::empty()
    } else if ids.contains(rows.last().id) {
        compensations(rows.drop_last(), ids, deleter, now).push(compensation(rows.last(), deleter, now))
    } else {
        compensations(rows.drop_last(), ids, deleter, now)
    }
}

/// The kept rows are rows of the store, in the same order.
pub proof fn lemma_kept_rows(rows: Seq<TrackerCount>, ids: Seq<i64>)
    ensures
        kept_rows(rows, ids).len() <= rows.len(),
        compensations(rows, ids, 0, 0).len() <= rows.len(),
        forall|i: int| 0 <= i < kept_rows(rows, ids).len() ==> rows.contains(#[trigger] kept_rows(rows, ids)[i]),
        ids_increasing(rows) ==> ids_increasing(kept_rows(rows, ids)),
        keys_unique(rows) ==> keys_unique(kept_rows(rows, ids)),
    decreases rows.len(),
{
    if rows.len() > 0 {
        let dl = rows.drop_last();
        lemma_kept_rows(dl, ids);
        let k0 = kept_rows(dl, ids);
        let k = kept_rows(rows, ids);
        assert forall|i: int| 0 <= i < k0.len() implies rows.contains(#[trigger] k0[i]) by {
            let j = choose|j: int| 0 <= j < dl.len() && dl[j] == k0[i];
            assert(rows[j] == k0[i]);
        }
        assert forall|i: int| 0 <= i < k.len() implies rows.contains(#[trigger] k[i]) by {
            if i < k0.len() {
                assert(k[i] == k0[i]);
            } else {
                assert(k[i] == rows[rows.len() - 1]);
            }
        }
        if !ids.contains(rows.last().id) {
            if ids_increasing(rows) {
                assert forall|a: int, b: int| 0 <= a < b < k.len() implies (#[trigger] k[a]).id < (
                #[trigger] k[b]).id by {
                    assert(k[a] == k0[a]);
                    if b < k0.len() {
                        assert(k[b] == k0[b]);
                    } else {
                        let j = choose|j: int| 0 <= j < dl.len() && dl[j] == k0[a];
                        assert(rows[j] == k0[a]);
                    }
                }
            }
            if keys_unique(rows) {
                assert forall|a: int, b: int| 0 <= a < b < k.len() implies row_key(#[trigger] k[a]) != row_key(
                #[trigger] k[b]) by {
                    assert(k[a] == k0[a]);
                    if b < k0.len() {
                        assert(k[b] == k0[b]);
                    } else {
                        let j = choose|j: int| 0 <= j < dl.len() && dl[j] == k0[a];
                        assert(rows[j] == k0[a]);
                    }
                }
            }
        }
    }
}

/// A purge leaves the row of a counter in place unless its id is named.
pub proof fn lemma_row_of_kept(rows: Seq<TrackerCount>, ids: Seq<i64>, key: CountKey)
    requires
        keys_unique(rows),
    ensures
        row_of(kept_rows(rows, ids), key) == match row_of(rows, key) {
            Some(row) => if ids.contains(row.id) {
                None
            } else {
                Some(row)
            },
            None => None,
        },
    decreases rows.len(),
{
    if rows.len() > 0 {
        let dl = rows.drop_last();
        assert(keys_unique(dl)) by {
            assert forall|a: int, b: int| 0 <= a < b < dl.len() implies row_key(#[trigger] dl[a]) != row_key(
            #[trigger] dl[b]) by {
                assert(dl[a] == rows[a] && dl[b] == rows[b]);
            }
        }
        lemma_row_of_kept(dl, ids, key);
        let k0 = kept_rows(dl, ids);
        if !ids.contains(rows.last().id) {
            assert(k0.push(rows.last()).drop_last() =~= k0);
        }
        if row_key(rows.last()) == key {
            assert forall|j: int| 0 <= j < dl.len() implies row_key(#[trigger] dl[j]) != key by {
                assert(dl[j] == rows[j]);
            }
            lemma_row_of_none(dl, key);
        }
    }
}

/// Replaying the ledger after a purge: a purged counter's total is taken back
/// once; every other counter replays as before.
pub proof fn lemma_replay_compensations(
    ledger: Seq<TrackerCountChange>,
    rows: Seq<TrackerCount>,
    ids: Seq<i64>,
    deleter: DiscordUserId,
    now: Timestamp,
    key: CountKey,
)
    requires
        keys_unique(rows),
        forall|i: int| 0 <= i < rows.len() ==> 0 <= (#[trigger] rows[i]).total,
    ensures
        replay(ledger + compensations(rows, ids, deleter, now), key) == match row_of(rows, key) {
            Some(row) => if ids.contains(row.id) {
                floored(replay(ledger, key), -row.total)
            } else {
                replay(ledger, key)
            },
            None => replay(ledger, key),
        },
    decreases rows.len(),
{
    if rows.len() == 0 {
        assert(ledger + compensations(rows, ids, deleter, now) =~= ledger);
    } else {
        let dl = rows.drop_last();
        let last = rows.last();
        assert(keys_unique(dl)) by {
            assert forall|a: int, b: int| 0 <= a < b < dl.len() implies row_key(#[trigger] dl[a]) != row_key(
            #[trigger] dl[b]) by {
                assert(dl[a] == rows[a] && dl[b] == rows[b]);
            }
        }
        assert forall|i: int| 0 <= i < dl.len() implies 0 <= (#[trigger] dl[i]).total by {
            assert(dl[i] == rows[i]);
        }
        lemma_replay_compensations(ledger, dl, ids, deleter, now, key);
        let c0 = compensations(dl, ids, deleter, now);
        if ids.contains(last.id) {
            let c = compensation(last, deleter, now);
            assert(ledger + compensations(rows, ids, deleter, now) =~= (ledger + c0).push(c));
            lemma_replay_push(ledger + c0, c, key);
            assert(change_key(c.change) == row_key(last));
        }
        if row_key(last) == key {
            assert forall|j: int| 0 <= j < dl.len() implies row_key(#[trigger] dl[j]) != key by {
                assert(dl[j] == rows[j]);
            }
            lemma_row_of_none(dl, key);
        }
    }
}

} // verus!
