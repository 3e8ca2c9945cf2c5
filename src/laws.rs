use vstd::prelude::*;

use crate::counts::{
    change_key, floor_fold, lemma_row_of_key, replay, row_of, total_of, CountKey, DiscordGuildId,
    DiscordUserId, NewTrackerCountChange, Timestamp, TrackerCount,
};
use crate::purge::{compensation, compensations};
use crate::ranking::{
    ahead, in_scope, is_window, lemma_ahead_total, lemma_position_monotone, lemma_rank_count_bound,
    lemma_rank_count_monotone, outranks, position,
};
use crate::store::{
    adjust_error, adjusted, lemma_adjusted_well_formed, lemma_purged_well_formed, lemma_row_index,
    purge_error, purged, subject_rank, well_formed, StoreView,
};
use crate::tracker_stat::TrackerStat;

verus! {

/// The store after each change of `steps` is applied in turn, at its time.
pub open spec fn adjusted_all(v: StoreView, steps: Seq<(NewTrackerCountChange, Timestamp)>) -> StoreView
    decreases steps.len(),
{
    if steps.len() == 0 {
        v
    } else {
        adjusted(adjusted_all(v, steps.drop_last()), steps.last().0, steps.last().1)
    }
}

/// The deltas that `steps` apply to the counter `key`, in order.
pub open spec fn step_deltas(steps: Seq<(NewTrackerCountChange, Timestamp)>, key: CountKey) -> Seq<int>
    decreases steps.len(),
{
    if steps.len() == 0 {
        Seq::empty()
    } else if change_key(steps.last().0) == key {
        step_deltas(steps.drop_last(), key).push(steps.last().0.total as int)
    } else {
        step_deltas(steps.drop_last(), key)
    }
}

/// Floor ratchet: after a run of successful adjustments, a counter that had
/// no row holds its deltas applied one by one, each result floored at zero;
/// not the floored sum of the deltas. Changes of other counters may come in
/// between.
pub proof fn law_floor_ratchet(v: StoreView, steps: Seq<(NewTrackerCountChange, Timestamp)>, key: CountKey)
    requires
        well_formed(v),
        row_of(v.counts, key) is None,
        forall|i: int|
            0 <= i < steps.len() ==> adjust_error(adjusted_all(v, steps.take(i)), (#[trigger] steps[i]).0)
                is None,
    ensures
        well_formed(adjusted_all(v, steps)),
        total_of(adjusted_all(v, steps).counts, key) == floor_fold(0, step_deltas(steps, key)),
    decreases steps.len(),
{
    if steps.len() > 0 {
        let dl = steps.drop_last();
        assert forall|i: int| 0 <= i < dl.len() implies adjust_error(adjusted_all(v, dl.take(i)), (
        #[trigger] dl[i]).0) is None by {
            assert(dl.take(i) =~= steps.take(i));
            assert(dl[i] == steps[i]);
        }
        law_floor_ratchet(v, dl, key);
        let n = steps.len() - 1;
        assert(steps.take(n) =~= dl);
        assert(adjust_error(adjusted_all(v, steps.take(n)), steps[n].0) is None);
        lemma_adjusted_well_formed(adjusted_all(v, dl), steps.last().0, steps.last().1);
        if change_key(steps.last().0) == key {
            assert(step_deltas(steps, key).drop_last() =~= step_deltas(dl, key));
        } else {
            assert(row_of(adjusted_all(v, steps).counts, key) == row_of(adjusted_all(v, dl).counts, key));
        }
    }
}

/// Rank order: of two subjects with rows, the one with the higher total ranks
/// first; with equal totals, the one updated earlier ranks first.
pub proof fn law_rank_order(
    v: StoreView,
    stat: TrackerStat,
    guild_id: DiscordGuildId,
    a: DiscordUserId,
    b: DiscordUserId,
)
    requires
        well_formed(v),
        row_of(v.counts, (stat, guild_id, a)) is Some,
        row_of(v.counts, (stat, guild_id, b)) is Some,
    ensures
        ({
            let ra = row_of(v.counts, (stat, guild_id, a))->Some_0;
            let rb = row_of(v.counts, (stat, guild_id, b))->Some_0;
            &&& ra.total > rb.total ==> subject_rank(v.counts, stat, guild_id, a) < subject_rank(
                v.counts,
                stat,
                guild_id,
                b,
            )
            &&& ra.total == rb.total && ra.updated < rb.updated ==> subject_rank(
                v.counts,
                stat,
                guild_id,
                a,
            ) < subject_rank(v.counts, stat, guild_id, b)
        }),
{
    let ra = row_of(v.counts, (stat, guild_id, a))->Some_0;
    let rb = row_of(v.counts, (stat, guild_id, b))->Some_0;
    let i = lemma_row_index(v.counts, (stat, guild_id, a));
    assert(v.counts.contains(ra));
    lemma_row_of_key(v.counts, (stat, guild_id, a));
    if outranks(ra, rb) {
        lemma_rank_count_monotone(v.counts, stat, guild_id, ra, rb);
    }
}

/// A subject without a row ranks after every subject with a row in the scope,
/// those with a total of zero included.
pub proof fn law_absent_ranks_last(
    v: StoreView,
    stat: TrackerStat,
    guild_id: DiscordGuildId,
    absent: DiscordUserId,
    present: DiscordUserId,
)
    requires
        well_formed(v),
        row_of(v.counts, (stat, guild_id, absent)) is None,
        row_of(v.counts, (stat, guild_id, present)) is Some,
    ensures
        subject_rank(v.counts, stat, guild_id, present) < subject_rank(v.counts, stat, guild_id, absent),
{
    let row = row_of(v.counts, (stat, guild_id, present))->Some_0;
    lemma_row_index(v.counts, (stat, guild_id, present));
    assert(v.counts.contains(row));
    lemma_row_of_key(v.counts, (stat, guild_id, present));
    lemma_rank_count_bound(v.counts, stat, guild_id, row);
}

/// Window continuation: the window at `offset + limit` continues the window
/// at `offset` with no row in both; together they are the window of twice the
/// size.
pub proof fn law_window_continuation(
    rows: Seq<TrackerCount>,
    stat: TrackerStat,
    guild_id: DiscordGuildId,
    offset: nat,
    limit: nat,
    from_top: bool,
    first: Seq<TrackerCount>,
    next: Seq<TrackerCount>,
)
    requires
        is_window(rows, stat, guild_id, offset as int, limit as int, from_top, first),
        is_window(rows, stat, guild_id, (offset + limit) as int, limit as int, from_top, next),
    ensures
        is_window(rows, stat, guild_id, offset as int, (2 * limit) as int, from_top, first + next),
        forall|i: int, j: int| 0 <= i < first.len() && 0 <= j < next.len() ==> first[i] != next[j],
{
    let both = first + next;
    assert forall|i: int| 0 <= i < both.len() implies rows.contains(#[trigger] both[i]) && in_scope(
        both[i],
        stat,
        guild_id,
    ) && position(rows, stat, guild_id, both[i], from_top) == offset + i by {
        if i < first.len() {
            assert(both[i] == first[i]);
        } else {
            assert(both[i] == next[i - first.len()]);
        }
    }
    assert forall|i: int, j: int| 0 <= i < first.len() && 0 <= j < next.len() implies first[i] != next[j] by {
        assert(position(rows, stat, guild_id, first[i], from_top) == offset + i);
        assert(position(rows, stat, guild_id, next[j], from_top) == offset + limit + j);
    }
}

/// Windows are deterministic: two windows taken with the same place and size
/// from the same rows are the same.
pub proof fn law_window_unique(
    v: StoreView,
    stat: TrackerStat,
    guild_id: DiscordGuildId,
    offset: int,
    limit: int,
    from_top: bool,
    w1: Seq<TrackerCount>,
    w2: Seq<TrackerCount>,
)
    requires
        well_formed(v),
        is_window(v.counts, stat, guild_id, offset, limit, from_top, w1),
        is_window(v.counts, stat, guild_id, offset, limit, from_top, w2),
    ensures
        w1 == w2,
{
    assert forall|i: int| 0 <= i < w1.len() implies w1[i] == w2[i] by {
        let x = w1[i];
        let y = w2[i];
        if x != y {
            let a = choose|a: int| 0 <= a < v.counts.len() && v.counts[a] == x;
            let b = choose|b: int| 0 <= b < v.counts.len() && v.counts[b] == y;
            assert(a != b);
            if a < b {
                assert(v.counts[a].id < v.counts[b].id);
            } else {
                assert(v.counts[b].id < v.counts[a].id);
            }
            lemma_ahead_total(x, y, from_top);
            if ahead(x, y, from_top) {
                lemma_position_monotone(v.counts, stat, guild_id, x, y, from_top);
            } else {
                lemma_position_monotone(v.counts, stat, guild_id, y, x, from_top);
            }
        }
    }
    assert(w1 =~= w2);
}

/// The purge entry of a purged row is among the compensations.
proof fn lemma_compensation_present(
    rows: Seq<TrackerCount>,
    ids: Seq<i64>,
    deleter: DiscordUserId,
    now: Timestamp,
    j: int,
)
    requires
        0 <= j < rows.len(),
        ids.contains(rows[j].id),
    ensures
        compensations(rows, ids, deleter, now).contains(compensation(rows[j], deleter, now)),
    decreases rows.len(),
{
    let c = compensations(rows, ids, deleter, now);
    if j == rows.len() - 1 {
        assert(c.last() == compensation(rows[j], deleter, now));
        assert(c[c.len() - 1] == c.last());
    } else {
        assert(rows.drop_last()[j] == rows[j]);
        lemma_compensation_present(rows.drop_last(), ids, deleter, now, j);
        let c0 = compensations(rows.drop_last(), ids, deleter, now);
        let k = choose|k: int| 0 <= k < c0.len() && c0[k] == compensation(rows[j], deleter, now);
        if ids.contains(rows.last().id) {
            assert(c[k] == c0[k]);
        }
    }
}

/// Purge round trip: purging a counter's row removes it and appends an entry
/// that takes its whole total back, so replaying the ledger gives zero.
pub proof fn law_purge_round_trip(
    v: StoreView,
    deleter: DiscordUserId,
    ids: Seq<i64>,
    now: Timestamp,
    key: CountKey,
)
    requires
        well_formed(v),
        purge_error(v, ids) is None,
        row_of(v.counts, key) is Some,
        ids.contains(row_of(v.counts, key)->Some_0.id),
    ensures
        row_of(purged(v, deleter, ids, now).counts, key) is None,
        purged(v, deleter, ids, now).ledger.contains(
            compensation(row_of(v.counts, key)->Some_0, deleter, now),
        ),
        compensation(row_of(v.counts, key)->Some_0, deleter, now).change.total == -row_of(
            v.counts,
            key,
        )->Some_0.total,
        replay(purged(v, deleter, ids, now).ledger, key) == 0,
{
    let row = row_of(v.counts, key)->Some_0;
    let w = purged(v, deleter, ids, now);
    lemma_purged_well_formed(v, deleter, ids, now);
    let j = lemma_row_index(v.counts, key);
    assert(0 <= v.counts[j].total);
    lemma_compensation_present(v.counts, ids, deleter, now, j);
    let c = compensations(v.counts, ids, deleter, now);
    let k = choose|k: int| 0 <= k < c.len() && c[k] == compensation(row, deleter, now);
    assert(w.ledger[v.ledger.len() + k] == c[k]);
    assert(replay(w.ledger, key) == total_of(w.counts, key));
}

} // verus!
