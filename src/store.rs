use vstd::prelude::*;

use crate::counts::{
    change_key, deltas_of, floored, keys_unique, lemma_replay_push, lemma_row_of_at, lemma_row_of_key,
    lemma_row_of_none, lemma_row_of_push, lemma_row_of_update, replay, row_key, row_of, total_of,
    AdjustmentError, CountKey, DiscordGuildId, DiscordUserId, NewTrackerCountChange, Timestamp,
    TrackerCount, TrackerCountChange,
};
use crate::purge::{
    compensation, compensations, kept_rows, lemma_kept_rows, lemma_replay_compensations,
    lemma_row_of_kept,
};
use crate::ranking::{
    ahead, count_set, ids_increasing, in_scope, is_ahead, is_window, lemma_ahead_total, lemma_ahead_transitive,
    lemma_count_set_none, lemma_count_set_update, lemma_rank_count_bound, is_outranking, rank_count,
    lemma_position_by_flags, lemma_scope_by_flags, lemma_scope_count_bound, position, scope_count,
    window_len,
};
use crate::tracker_stat::TrackerStat;

verus! {

/// The largest identity a row of either table can be given; neither table
/// grows past it.
pub const MAX_ENTRIES: u64 = 0x7fff_ffff_ffff_ffff;

/// What a store holds: the ledger of every change, the current row of each
/// counter, and the identity the next new row will get.
pub ghost struct StoreView {
    pub ledger: Seq<TrackerCountChange>,
    pub counts: Seq<TrackerCount>,
    pub next_id: int,
}

/// The invariant of a store. Among other things, every counter's total is what
/// replaying the ledger gives, so the ledger is a complete history.
pub open spec fn well_formed(v: StoreView) -> bool {
    &&& 1 <= v.next_id <= MAX_ENTRIES
    &&& v.counts.len() < v.next_id
    &&& v.ledger.len() <= MAX_ENTRIES
    &&& ids_increasing(v.counts)
    &&& forall|i: int|
        0 <= i < v.counts.len() ==> 1 <= (#[trigger] v.counts[i]).id < v.next_id && 0
            <= v.counts[i].total
    &&& keys_unique(v.counts)
    &&& forall|key: CountKey| #[trigger] replay(v.ledger, key) == total_of(v.counts, key)
}

/// The error an adjustment meets, if any.
pub open spec fn adjust_error(v: StoreView, change: NewTrackerCountChange) -> Option<AdjustmentError> {
    if v.ledger.len() >= MAX_ENTRIES {
        Some(AdjustmentError::LedgerWriteFailed)
    } else {
        match row_of(v.counts, change_key(change)) {
            None => if v.next_id >= MAX_ENTRIES {
                Some(AdjustmentError::AggregateWriteFailed)
            } else {
                None
            },
            Some(row) => if row.total + change.total > i128::MAX {
                Some(AdjustmentError::AggregateWriteFailed)
            } else {
                None
            },
        }
    }
}

/// The total a successful adjustment leaves: the old total plus the delta,
/// floored at zero; a counter without a row starts from zero.
pub open spec fn adjusted_total(v: StoreView, change: NewTrackerCountChange) -> int {
    floored(total_of(v.counts, change_key(change)), change.total as int)
}

/// A row after an update by `delta` at time `now`.
pub open spec fn refreshed(row: TrackerCount, delta: int, now: Timestamp) -> TrackerCount {
    TrackerCount {
        id: row.id,
        created: row.created,
        updated: now,
        stat: row.stat,
        guild_id: row.guild_id,
        user_id: row.user_id,
        total: floored(row.total as int, delta) as i128,
    }
}

/// The row created for a counter's first change.
pub open spec fn first_row(v: StoreView, change: NewTrackerCountChange, now: Timestamp) -> TrackerCount {
    TrackerCount {
        id: v.next_id as i64,
        created: now,
        updated: now,
        stat: change.stat,
        guild_id: change.guild_id,
        user_id: change.target,
        total: floored(0, change.total as int) as i128,
    }
}

/// The store after a successful adjustment at time `now`: the change is
/// appended to the ledger, and the counter's row is created or refreshed.
pub open spec fn adjusted(v: StoreView, change: NewTrackerCountChange, now: Timestamp) -> StoreView {
    let key = change_key(change);
    StoreView {
        ledger: v.ledger.push(TrackerCountChange { created: now, change }),
        counts: match row_of(v.counts, key) {
            None => v.counts.push(first_row(v, change, now)),
            Some(_) => v.counts.map_values(
                |row: TrackerCount|
                    if row_key(row) == key {
                        refreshed(row, change.total as int, now)
                    } else {
                        row
                    },
            ),
        },
        next_id: match row_of(v.counts, key) {
            None => v.next_id + 1,
            Some(_) => v.next_id,
        },
    }
}

/// The index of the row that holds `key`.
pub proof fn lemma_row_index(rows: Seq<TrackerCount>, key: CountKey) -> (i: int)
    requires
        row_of(rows, key) is Some,
    ensures
        0 <= i < rows.len(),
        rows[i] == row_of(rows, key)->Some_0,
        row_key(rows[i]) == key,
    decreases rows.len(),
{
    if row_key(rows.last()) == key {
        rows.len() - 1
    } else {
        lemma_row_index(rows.drop_last(), key)
    }
}

/// A successful adjustment keeps the invariant, and leaves every other
/// counter as it was.
pub proof fn lemma_adjusted_well_formed(v: StoreView, change: NewTrackerCountChange, now: Timestamp)
    requires
        well_formed(v),
        adjust_error(v, change) is None,
    ensures
        well_formed(adjusted(v, change, now)),
        total_of(adjusted(v, change, now).counts, change_key(change)) == adjusted_total(v, change),
        forall|k: CountKey|
            k != change_key(change) ==> #[trigger] row_of(adjusted(v, change, now).counts, k)
                == row_of(v.counts, k),
{
    let key = change_key(change);
    let e = TrackerCountChange { created: now, change };
    let w = adjusted(v, change, now);
    match row_of(v.counts, key) {
        None => {
            let row = first_row(v, change, now);
            assert forall|k: CountKey| #[trigger] row_of(w.counts, k) == if k == key {
                Some(row)
            } else {
                row_of(v.counts, k)
            } by {
                lemma_row_of_push(v.counts, row, k);
            }
            assert forall|i: int| 0 <= i < v.counts.len() implies row_key(#[trigger] v.counts[i]) != key by {
                if row_key(v.counts[i]) == key {
                    lemma_row_of_at(v.counts, i);
                }
            }
            assert(keys_unique(w.counts)) by {
                assert forall|i: int, j: int| 0 <= i < j < w.counts.len() implies row_key(#[trigger] w.counts[i])
                    != row_key(#[trigger] w.counts[j]) by {
                    if j == v.counts.len() {
                        assert(w.counts[i] == v.counts[i]);
                    } else {
                        assert(w.counts[i] == v.counts[i]);
                        assert(w.counts[j] == v.counts[j]);
                    }
                }
            }
            assert(ids_increasing(w.counts)) by {
                assert forall|i: int, j: int| 0 <= i < j < w.counts.len() implies (#[trigger] w.counts[i]).id
                    < (#[trigger] w.counts[j]).id by {
                    assert(w.counts[i] == v.counts[i]);
                    if j < v.counts.len() {
                        assert(w.counts[j] == v.counts[j]);
                    }
                }
            }
            assert forall|k: CountKey| #[trigger] replay(w.ledger, k) == total_of(w.counts, k) by {
                lemma_replay_push(v.ledger, e, k);
                assert(replay(v.ledger, k) == total_of(v.counts, k));
            }
        },
        Some(old_row) => {
            let i = lemma_row_index(v.counts, key);
            let row = refreshed(old_row, change.total as int, now);
            let f = |r: TrackerCount|
                if row_key(r) == key {
                    refreshed(r, change.total as int, now)
                } else {
                    r
                };
            assert forall|j: int| 0 <= j < v.counts.len() && j != i implies row_key(#[trigger] v.counts[j]) != key by {
                if j < i {
                    assert(row_key(v.counts[j]) != row_key(v.counts[i]));
                } else {
                    assert(row_key(v.counts[i]) != row_key(v.counts[j]));
                }
            }
            assert(w.counts =~= v.counts.update(i, row)) by {
                assert(w.counts == v.counts.map_values(f));
            }
            assert forall|k: CountKey| #[trigger] row_of(w.counts, k) == if k == key {
                Some(row)
            } else {
                row_of(v.counts, k)
            } by {
                lemma_row_of_update(v.counts, i, row, k);
            }
            assert(keys_unique(w.counts)) by {
                assert forall|a: int, b: int| 0 <= a < b < w.counts.len() implies row_key(#[trigger] w.counts[a])
                    != row_key(#[trigger] w.counts[b]) by {
                    assert(row_key(w.counts[a]) == row_key(v.counts[a]));
                    assert(row_key(w.counts[b]) == row_key(v.counts[b]));
                }
            }
            assert(ids_increasing(w.counts)) by {
                assert forall|a: int, b: int| 0 <= a < b < w.counts.len() implies (#[trigger] w.counts[a]).id
                    < (#[trigger] w.counts[b]).id by {
                    assert(w.counts[a].id == v.counts[a].id);
                    assert(w.counts[b].id == v.counts[b].id);
                }
            }
            assert forall|j: int| 0 <= j < w.counts.len() implies 1 <= (#[trigger] w.counts[j]).id < w.next_id
                && 0 <= w.counts[j].total by {
                assert(w.counts[j].id == v.counts[j].id);
            }
            assert forall|k: CountKey| #[trigger] replay(w.ledger, k) == total_of(w.counts, k) by {
                lemma_replay_push(v.ledger, e, k);
                assert(replay(v.ledger, k) == total_of(v.counts, k));
            }
        },
    }
}

/// The error a purge meets, if any: the ledger has no room for the entries
/// that close the purged rows.
pub open spec fn purge_error(v: StoreView, ids: Seq<i64>) -> Option<AdjustmentError> {
    if v.ledger.len() + compensations(v.counts, ids, 0, 0).len() > MAX_ENTRIES {
        Some(AdjustmentError::LedgerWriteFailed)
    } else {
        None
    }
}

/// The store after a successful purge of the rows whose ids are in `ids`, by
/// `deleter` at time `now`: the rows are gone, and the ledger ends with one
/// entry for each of them that takes its total back.
pub open spec fn purged(v: StoreView, deleter: DiscordUserId, ids: Seq<i64>, now: Timestamp) -> StoreView {
    StoreView {
        ledger: v.ledger + compensations(v.counts, ids, deleter, now),
        counts: kept_rows(v.counts, ids),
        next_id: v.next_id,
    }
}

/// The number of rows a purge of `ids` removes.
pub open spec fn purge_count(v: StoreView, ids: Seq<i64>) -> int {
    compensations(v.counts, ids, 0, 0).len() as int
}

/// The number of compensating entries does not depend on who purges, or when.
pub proof fn lemma_compensations_len(
    rows: Seq<TrackerCount>,
    ids: Seq<i64>,
    deleter: DiscordUserId,
    now: Timestamp,
)
    ensures
        compensations(rows, ids, deleter, now).len() == compensations(rows, ids, 0, 0).len(),
    decreases rows.len(),
{
    if rows.len() > 0 {
        lemma_compensations_len(rows.drop_last(), ids, deleter, now);
    }
}

/// A successful purge keeps the invariant. A purged counter has no row left
/// and replays to zero; every other counter keeps its row.
pub proof fn lemma_purged_well_formed(v: StoreView, deleter: DiscordUserId, ids: Seq<i64>, now: Timestamp)
    requires
        well_formed(v),
        purge_error(v, ids) is None,
    ensures
        well_formed(purged(v, deleter, ids, now)),
        forall|k: CountKey| #[trigger]
            row_of(purged(v, deleter, ids, now).counts, k) == match row_of(v.counts, k) {
                Some(row) => if ids.contains(row.id) {
                    None
                } else {
                    Some(row)
                },
                None => None,
            },
{
    let w = purged(v, deleter, ids, now);
    lemma_kept_rows(v.counts, ids);
    lemma_compensations_len(v.counts, ids, deleter, now);
    assert forall|i: int| 0 <= i < w.counts.len() implies 1 <= (#[trigger] w.counts[i]).id < w.next_id && 0
        <= w.counts[i].total by {
        let j = choose|j: int| 0 <= j < v.counts.len() && v.counts[j] == w.counts[i];
        assert(v.counts[j] == w.counts[i]);
    }
    assert forall|k: CountKey| #[trigger] row_of(w.counts, k) == match row_of(v.counts, k) {
        Some(row) => if ids.contains(row.id) {
            None
        } else {
            Some(row)
        },
        None => None,
    } by {
        lemma_row_of_kept(v.counts, ids, k);
    }
    assert forall|k: CountKey| #[trigger] replay(w.ledger, k) == total_of(w.counts, k) by {
        lemma_row_of_kept(v.counts, ids, k);
        lemma_replay_compensations(v.ledger, v.counts, ids, deleter, now, k);
        assert(replay(v.ledger, k) == total_of(v.counts, k));
        match row_of(v.counts, k) {
            Some(row) => {
                lemma_row_index(v.counts, k);
            },
            None => {},
        }
    }
}

/// An in-memory counter store. Every change goes to the ledger and to the
/// counter's row together, or to neither.
pub struct CounterStore {
    ledger: Vec<TrackerCountChange>,
    counts: Vec<TrackerCount>,
    next_id: i64,
}

impl View for CounterStore {
    type V = StoreView;

    closed spec fn view(&self) -> StoreView {
        StoreView { ledger: self.ledger@, counts: self.counts@, next_id: self.next_id as int }
    }
}

impl CounterStore {
    /// An empty store.
    pub fn new() -> (r: CounterStore)
        ensures
            r@.ledger.len() == 0,
            r@.counts.len() == 0,
            r@.next_id == 1,
            well_formed(r@),
    {
        let r = CounterStore { ledger: Vec::new(), counts: Vec::new(), next_id: 1 };
        proof {
            assert forall|key: CountKey| #[trigger] replay(r@.ledger, key) == total_of(r@.counts, key) by {
                assert(deltas_of(r@.ledger, key) =~= Seq::<int>::empty());
            }
        }
        r
    }

    /// Every change recorded so far, oldest first.
    pub fn ledger(&self) -> (r: &[TrackerCountChange])
        ensures
            r@ == self@.ledger,
    {
        self.ledger.as_slice()
    }

    /// The row of every counter, oldest first.
    pub fn rows(&self) -> (r: &[TrackerCount])
        ensures
            r@ == self@.counts,
    {
        self.counts.as_slice()
    }

    /// The index of the row that holds `key`, if any.
    fn find_row(&self, stat: TrackerStat, guild_id: DiscordGuildId, user_id: DiscordUserId) -> (r: Option<usize>)
        requires
            well_formed(self@),
        ensures
            match r {
                Some(i) => i < self@.counts.len() && row_of(self@.counts, (stat, guild_id, user_id))
                    == Some(self@.counts[i as int]),
                None => row_of(self@.counts, (stat, guild_id, user_id)) is None,
            },
    {
        let key: Ghost<CountKey> = Ghost((stat, guild_id, user_id));
        let mut i: usize = 0;
        while i < self.counts.len()
            invariant
                well_formed(self@),
                key@ == (stat, guild_id, user_id),
                i <= self.counts@.len(),
                forall|j: int| 0 <= j < i ==> row_key(#[trigger] self.counts@[j]) != key@,
            decreases self.counts@.len() - i,
        {
            let row = &self.counts[i];
            if row.stat == stat && row.guild_id == guild_id && row.user_id == user_id {
                proof {
                    lemma_row_of_at(self.counts@, i as int);
                }
                return Some(i);
            }
            i = i + 1;
        }
        proof {
            lemma_row_of_none(self.counts@, key@);
        }
        None
    }
}

/// The 0-based rank of a subject on the scoreboard of a scope: the number of
/// rows of the scope that rank above its row (`outranks`). A subject without a
/// row ranks as a total of zero updated after every row, that is below every
/// row of the scope.
pub open spec fn subject_rank(
    rows: Seq<TrackerCount>,
    stat: TrackerStat,
    guild_id: DiscordGuildId,
    user_id: DiscordUserId,
) -> int {
    match row_of(rows, (stat, guild_id, user_id)) {
        Some(row) => rank_count(rows, stat, guild_id, row) as int,
        None => scope_count(rows, stat, guild_id) as int,
    }
}

impl TrackerCount {
    /// Records `change` at time `now`, which the caller reads from its clock:
    /// appends it to the ledger and creates or refreshes the counter's row,
    /// whose total becomes the old total plus the delta, floored at zero.
    /// Returns that total. On an error nothing changes.
    pub fn adjust_count(store: &mut CounterStore, change: NewTrackerCountChange, now: Timestamp) -> (r:
        Result<i128, AdjustmentError>)
        requires
            well_formed(old(store)@),
        ensures
            well_formed(final(store)@),
            match r {
                Ok(total) => adjust_error(old(store)@, change) is None && final(store)@ == adjusted(
                    old(store)@,
                    change,
                    now,
                ) && total == adjusted_total(old(store)@, change),
                Err(e) => adjust_error(old(store)@, change) == Some(e) && final(store)@ == old(store)@,
            },
    {
        if store.ledger.len() as u64 >= MAX_ENTRIES {
            return Err(AdjustmentError::LedgerWriteFailed);
        }
        let ghost before = store@;
        let total = match store.find_row(change.stat, change.guild_id, change.target) {
            None => {
                if store.next_id as u64 >= MAX_ENTRIES {
                    return Err(AdjustmentError::AggregateWriteFailed);
                }
                let total = if change.total < 0 {
                    0
                } else {
                    change.total
                };
                let row = TrackerCount {
                    id: store.next_id,
                    created: now,
                    updated: now,
                    stat: change.stat,
                    guild_id: change.guild_id,
                    user_id: change.target,
                    total,
                };
                store.counts.push(row);
                store.next_id = store.next_id + 1;
                total
            },
            Some(i) => {
                let row = store.counts[i];
                if change.total > 0 && row.total > i128::MAX - change.total {
                    return Err(AdjustmentError::AggregateWriteFailed);
                }
                let sum = row.total + change.total;
                let total = if sum < 0 {
                    0
                } else {
                    sum
                };
                let new_row = TrackerCount {
                    id: row.id,
                    created: row.created,
                    updated: now,
                    stat: row.stat,
                    guild_id: row.guild_id,
                    user_id: row.user_id,
                    total,
                };
                proof {
                    let key = change_key(change);
                    let f = |r: TrackerCount|
                        if row_key(r) == key {
                            refreshed(r, change.total as int, now)
                        } else {
                            r
                        };
                    lemma_row_of_key(before.counts, key);
                    assert forall|j: int| 0 <= j < before.counts.len() && j != i implies row_key(
                        #[trigger] before.counts[j],
                    ) != key by {
                        if j < i {
                            assert(row_key(before.counts[j]) != row_key(before.counts[i as int]));
                        } else {
                            assert(row_key(before.counts[i as int]) != row_key(before.counts[j]));
                        }
                    }
                    assert(before.counts.update(i as int, new_row) =~= before.counts.map_values(f));
                }
                store.counts.set(i, new_row);
                total
            },
        };
        store.ledger.push(TrackerCountChange { created: now, change });
        proof {
            lemma_adjusted_well_formed(before, change, now);
            assert(store@.ledger =~= adjusted(before, change, now).ledger);
            assert(store@.counts =~= adjusted(before, change, now).counts);
        }
        Ok(total)
    }

    /// The row of the counter `(stat, guild_id, user_id)`, if it has one.
    pub fn load_for(store: &CounterStore, stat: TrackerStat, guild_id: DiscordGuildId, user_id: DiscordUserId) -> (r:
        Option<TrackerCount>)
        requires
            well_formed(store@),
        ensures
            r == row_of(store@.counts, (stat, guild_id, user_id)),
    {
        match store.find_row(stat, guild_id, user_id) {
            Some(i) => Some(store.counts[i]),
            None => None,
        }
    }

    /// The number of rows of the scope.
    pub fn count_rows(store: &CounterStore, stat: TrackerStat, guild_id: DiscordGuildId) -> (r: i64)
        requires
            well_formed(store@),
        ensures
            r == scope_count(store@.counts, stat, guild_id),
            r < i64::MAX,
    {
        let rows = &store.counts;
        let mut count: i64 = 0;
        let mut j: usize = 0;
        while j < rows.len()
            invariant
                well_formed(store@),
                rows@ == store@.counts,
                j <= rows@.len(),
                count == scope_count(rows@.subrange(0, j as int), stat, guild_id),
            decreases rows@.len() - j,
        {
            proof {
                assert(rows@.subrange(0, j + 1).drop_last() =~= rows@.subrange(0, j as int));
                lemma_scope_count_bound(rows@.subrange(0, j as int), stat, guild_id);
            }
            if rows[j].stat == stat && rows[j].guild_id == guild_id {
                count = count + 1;
            }
            j = j + 1;
        }
        proof {
            assert(rows@.subrange(0, rows@.len() as int) =~= rows@);
            lemma_scope_count_bound(rows@, stat, guild_id);
        }
        count
    }

    /// The 0-based rank of the subject on the scope's scoreboard, as
    /// `subject_rank` defines it.
    pub fn get_rank_of(store: &CounterStore, stat: TrackerStat, guild_id: DiscordGuildId, user_id: DiscordUserId) -> (r:
        i64)
        requires
            well_formed(store@),
        ensures
            r == subject_rank(store@.counts, stat, guild_id, user_id),
            0 <= r < i64::MAX,
    {
        let i = match store.find_row(stat, guild_id, user_id) {
            Some(i) => i,
            None => {
                return TrackerCount::count_rows(store, stat, guild_id);
            },
        };
        let rows = &store.counts;
        let me = rows[i];
        let mut count: i64 = 0;
        let mut j: usize = 0;
        while j < rows.len()
            invariant
                well_formed(store@),
                rows@ == store@.counts,
                j <= rows@.len(),
                count == rank_count(rows@.subrange(0, j as int), stat, guild_id, me),
            decreases rows@.len() - j,
        {
            proof {
                assert(rows@.subrange(0, j + 1).drop_last() =~= rows@.subrange(0, j as int));
                lemma_rank_count_bound(rows@.subrange(0, j as int), stat, guild_id, me);
                lemma_scope_count_bound(rows@.subrange(0, j as int), stat, guild_id);
            }
            if rows[j].stat == stat && rows[j].guild_id == guild_id && is_outranking(&rows[j], &me) {
                count = count + 1;
            }
            j = j + 1;
        }
        proof {
            assert(rows@.subrange(0, rows@.len() as int) =~= rows@);
            lemma_rank_count_bound(rows@, stat, guild_id, me);
            lemma_scope_count_bound(rows@, stat, guild_id);
        }
        count
    }

    /// The index of the row of the scope that comes first, read from the top
    /// or from the bottom, among those not yet taken.
    fn next_in_order(
        store: &CounterStore,
        stat: TrackerStat,
        guild_id: DiscordGuildId,
        taken: &Vec<bool>,
        from_top: bool,
    ) -> (r: Option<usize>)
        requires
            well_formed(store@),
            taken@.len() == store@.counts.len(),
        ensures
            match r {
                Some(b) => b < store@.counts.len() && !taken@[b as int] && in_scope(
                    store@.counts[b as int],
                    stat,
                    guild_id,
                ) && forall|k: int|
                    0 <= k < store@.counts.len() && k != b && !taken@[k] && in_scope(
                        #[trigger] store@.counts[k],
                        stat,
                        guild_id,
                    ) ==> ahead(store@.counts[b as int], store@.counts[k], from_top),
                None => forall|k: int|
                    0 <= k < store@.counts.len() && in_scope(#[trigger] store@.counts[k], stat, guild_id)
                        ==> taken@[k],
            },
    {
        let rows = &store.counts;
        let mut best: Option<usize> = None;
        let mut j: usize = 0;
        while j < rows.len()
            invariant
                well_formed(store@),
                rows@ == store@.counts,
                taken@.len() == rows@.len(),
                j <= rows@.len(),
                match best {
                    Some(b) => b < j && !taken@[b as int] && in_scope(rows@[b as int], stat, guild_id)
                        && forall|k: int|
                        0 <= k < j && k != b && !taken@[k] && in_scope(#[trigger] rows@[k], stat, guild_id)
                            ==> ahead(rows@[b as int], rows@[k], from_top),
                    None => forall|k: int|
                        0 <= k < j && in_scope(#[trigger] rows@[k], stat, guild_id) ==> taken@[k],
                },
            decreases rows@.len() - j,
        {
            if !taken[j] && rows[j].stat == stat && rows[j].guild_id == guild_id {
                match best {
                    None => {
                        best = Some(j);
                    },
                    Some(b) => {
                        if is_ahead(&rows[j], &rows[b], from_top) {
                            proof {
                                assert forall|k: int|
                                    0 <= k < j + 1 && k != j && !taken@[k] && in_scope(
                                        #[trigger] rows@[k],
                                        stat,
                                        guild_id,
                                    ) implies ahead(rows@[j as int], rows@[k], from_top) by {
                                    if k != b {
                                        lemma_ahead_transitive(
                                            rows@[j as int],
                                            rows@[b as int],
                                            rows@[k],
                                            from_top,
                                        );
                                    }
                                }
                            }
                            best = Some(j);
                        } else {
                            proof {
                                assert(rows@[b as int].id < rows@[j as int].id);
                                lemma_ahead_total(rows@[b as int], rows@[j as int], from_top);
                            }
                        }
                    },
                }
            }
            j = j + 1;
        }
        best
    }

    /// The window of at most `limit` rows of the scope starting at place
    /// `offset` (0-based), read from the top (`from_top`) or from the bottom.
    pub fn load_window(
        store: &CounterStore,
        stat: TrackerStat,
        guild_id: DiscordGuildId,
        offset: u64,
        limit: u64,
        from_top: bool,
    ) -> (r: Vec<TrackerCount>)
        requires
            well_formed(store@),
        ensures
            is_window(store@.counts, stat, guild_id, offset as int, limit as int, from_top, r@),
    {
        let rows = &store.counts;
        let n = rows.len();
        let mut taken: Vec<bool> = Vec::new();
        while taken.len() < n
            invariant
                taken@.len() <= n,
                forall|j: int| 0 <= j < taken@.len() ==> !#[trigger] taken@[j],
            decreases n - taken@.len(),
        {
            taken.push(false);
        }
        proof {
            lemma_count_set_none(taken@);
        }
        let ghost count = scope_count(rows@, stat, guild_id);
        let mut out: Vec<TrackerCount> = Vec::new();
        let mut step: usize = 0;
        while (out.len() as u64) < limit
            invariant
                well_formed(store@),
                rows@ == store@.counts,
                n == rows@.len(),
                count == scope_count(rows@, stat, guild_id),
                taken@.len() == n,
                forall|j: int| 0 <= j < n && #[trigger] taken@[j] ==> in_scope(rows@[j], stat, guild_id),
                count_set(taken@) == step,
                step <= count,
                forall|j: int, k: int|
                    0 <= j < n && 0 <= k < n && #[trigger] taken@[j] && !#[trigger] taken@[k] && in_scope(
                        rows@[k],
                        stat,
                        guild_id,
                    ) ==> ahead(rows@[j], rows@[k], from_top),
                out@.len() == if step > offset {
                    step - offset
                } else {
                    0
                },
                out@.len() <= limit,
                forall|i: int|
                    0 <= i < out@.len() ==> rows@.contains(#[trigger] out@[i]) && in_scope(
                        out@[i],
                        stat,
                        guild_id,
                    ) && position(rows@, stat, guild_id, out@[i], from_top) == offset + i,
            ensures
                out@.len() == window_len(count as int, offset as int, limit as int),
                forall|i: int|
                    0 <= i < out@.len() ==> rows@.contains(#[trigger] out@[i]) && in_scope(
                        out@[i],
                        stat,
                        guild_id,
                    ) && position(rows@, stat, guild_id, out@[i], from_top) == offset + i,
            decreases count - step,
        {
            let b = match TrackerCount::next_in_order(store, stat, guild_id, &taken, from_top) {
                Some(b) => b,
                None => {
                    proof {
                        lemma_scope_by_flags(rows@, taken@, stat, guild_id);
                    }
                    break;
                },
            };
            proof {
                let x = rows@[b as int];
                assert forall|j: int| 0 <= j < n implies #[trigger] taken@[j] == (in_scope(
                    rows@[j],
                    stat,
                    guild_id,
                ) && ahead(rows@[j], x, from_top)) by {
                    if !taken@[j] && in_scope(rows@[j], stat, guild_id) && ahead(rows@[j], x, from_top) {
                        if j != b {
                            if j < b {
                                assert(rows@[j].id < x.id);
                            } else {
                                assert(x.id < rows@[j].id);
                            }
                            lemma_ahead_total(x, rows@[j], from_top);
                        }
                    }
                }
                lemma_position_by_flags(rows@, taken@, stat, guild_id, x, from_top);
                assert(!taken@[b as int] && in_scope(rows@[b as int], stat, guild_id));
                lemma_scope_by_flags(rows@, taken@, stat, guild_id);
                lemma_scope_count_bound(rows@, stat, guild_id);
                lemma_count_set_update(taken@, b as int);
            }
            taken.set(b, true);
            if step as u64 >= offset {
                out.push(rows[b]);
                proof {
                    assert(rows@.contains(rows@[b as int]));
                }
            }
            step = step + 1;
        }
        out
    }

    /// The window of at most `lim` rows starting at place `start`, from the top
    /// of the scoreboard.
    pub fn load_asc(store: &CounterStore, stat: TrackerStat, guild_id: DiscordGuildId, start: u64, lim: u64) -> (r: Vec<
        TrackerCount,
    >)
        requires
            well_formed(store@),
        ensures
            is_window(store@.counts, stat, guild_id, start as int, lim as int, true, r@),
    {
        TrackerCount::load_window(store, stat, guild_id, start, lim, true)
    }

    /// The window of at most `lim` rows starting at place `start`, from the
    /// bottom of the scoreboard, in the reverse order.
    pub fn load_desc(store: &CounterStore, stat: TrackerStat, guild_id: DiscordGuildId, start: u64, lim: u64) -> (r: Vec<
        TrackerCount,
    >)
        requires
            well_formed(store@),
        ensures
            is_window(store@.counts, stat, guild_id, start as int, lim as int, false, r@),
    {
        TrackerCount::load_window(store, stat, guild_id, start, lim, false)
    }

    /// Purges, at time `now` (read by the caller), the rows whose ids are in `ids`: each is removed
    /// and the ledger gets an entry by `deleter` that takes its total back.
    /// Ids without a row are skipped. Returns the number of rows removed. On an
    /// error nothing changes.
    pub fn delete(store: &mut CounterStore, deleter: DiscordUserId, ids: &[i64], now: Timestamp) -> (r: Result<
        usize,
        AdjustmentError,
    >)
        requires
            well_formed(old(store)@),
        ensures
            well_formed(final(store)@),
            match r {
                Ok(n) => purge_error(old(store)@, ids@) is None && final(store)@ == purged(
                    old(store)@,
                    deleter,
                    ids@,
                    now,
                ) && n == purge_count(old(store)@, ids@),
                Err(e) => purge_error(old(store)@, ids@) == Some(e) && final(store)@ == old(store)@,
            },
    {
        let ghost before = store@;
        let n = store.counts.len();
        let mut kept: Vec<TrackerCount> = Vec::new();
        let mut closing: Vec<TrackerCountChange> = Vec::new();
        let mut i: usize = 0;
        while i < n
            invariant
                store@ == before,
                well_formed(before),
                n == before.counts.len(),
                i <= n,
                kept@ == kept_rows(before.counts.subrange(0, i as int), ids@),
                closing@ == compensations(before.counts.subrange(0, i as int), ids@, deleter, now),
            decreases n - i,
        {
            let row = store.counts[i];
            proof {
                assert(before.counts.subrange(0, i + 1).drop_last() =~= before.counts.subrange(0, i as int));
                assert(before.counts.subrange(0, i + 1).last() == row);
                assert(0 <= before.counts[i as int].total);
            }
            if contains_id(ids, row.id) {
                let entry = TrackerCountChange {
                    created: now,
                    change: NewTrackerCountChange {
                        stat: row.stat,
                        guild_id: row.guild_id,
                        updater: deleter,
                        target: row.user_id,
                        total: -row.total,
                        note: None,
                    },
                };
                proof {
                    assert(entry == compensation(row, deleter, now));
                }
                closing.push(entry);
            } else {
                kept.push(row);
            }
            i = i + 1;
        }
        proof {
            assert(before.counts.subrange(0, n as int) =~= before.counts);
            lemma_compensations_len(before.counts, ids@, deleter, now);
            lemma_kept_rows(before.counts, ids@);
        }
        let removed = closing.len();
        if store.ledger.len() as u64 + removed as u64 > MAX_ENTRIES {
            return Err(AdjustmentError::LedgerWriteFailed);
        }
        store.ledger.append(&mut closing);
        store.counts = kept;
        proof {
            lemma_purged_well_formed(before, deleter, ids@, now);
            assert(store@ == purged(before, deleter, ids@, now));
        }
        Ok(removed)
    }
}

/// Whether `id` is among `ids`.
fn contains_id(ids: &[i64], id: i64) -> (r: bool)
    ensures
        r == ids@.contains(id),
{
    let mut i: usize = 0;
    while i < ids.len()
        invariant
            i <= ids@.len(),
            forall|j: int| 0 <= j < i ==> ids@[j] != id,
        decreases ids@.len() - i,
    {
        if ids[i] == id {
            return true;
        }
        i = i + 1;
    }
    false
}

} // verus!
