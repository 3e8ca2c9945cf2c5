use vstd::prelude::*;

use crate::counts::{DiscordGuildId, TrackerCount};
use crate::tracker_stat::TrackerStat;

verus! {

/// The scoreboard order: a higher total first; among equal totals the earlier
/// update first; among equal update times the older row first.
pub open spec fn precedes(a: TrackerCount, b: TrackerCount) -> bool {
    a.total > b.total || (a.total == b.total && (a.updated < b.updated || (a.updated
        == b.updated && a.id < b.id)))
}

/// `a` comes before `b` when reading the scoreboard from the top
/// (`from_top`) or from the bottom.
pub open spec fn ahead(a: TrackerCount, b: TrackerCount, from_top: bool) -> bool {
    if from_top {
        precedes(a, b)
    } else {
        precedes(b, a)
    }
}

pub open spec fn in_scope(row: TrackerCount, stat: TrackerStat, guild_id: DiscordGuildId) -> bool {
    row.stat == stat && row.guild_id == guild_id
}

/// The number of rows of the scope.
pub open spec fn scope_count(rows: Seq<TrackerCount>, stat: TrackerStat, guild_id: DiscordGuildId) -> nat
    decreases rows.len(),
{
    if rows.len() == 0 {
        0
    } else {
        scope_count(rows.drop_last(), stat, guild_id) + if in_scope(rows.last(), stat, guild_id) {
            1nat
        } else {
            0nat
        }
    }
}

/// The number of rows of the scope that come before `x`, read from the top or
/// from the bottom: the 0-based place of `x` in that reading.
pub open spec fn position(
    rows: Seq<TrackerCount>,
    stat: TrackerStat,
    guild_id: DiscordGuildId,
    x: TrackerCount,
    from_top: bool,
) -> nat
    decreases rows.len(),
{
    if rows.len() == 0 {
        0
    } else {
        position(rows.drop_last(), stat, guild_id, x, from_top) + if in_scope(
            rows.last(),
            stat,
            guild_id,
        ) && ahead(rows.last(), x, from_top) {
            1nat
        } else {
            0nat
        }
    }
}

/// The number of set flags.
pub open spec fn count_set(flags: Seq<bool>) -> nat
    decreases flags.len(),
{
    if flags.len() == 0 {
        0
    } else {
        count_set(flags.drop_last()) + if flags.last() {
            1nat
        } else {
            0nat
        }
    }
}

/// Row ids increase strictly along the rows.
pub open spec fn ids_increasing(rows: Seq<TrackerCount>) -> bool {
    forall|i: int, j: int| 0 <= i < j < rows.len() ==> (#[trigger] rows[i]).id < (#[trigger] rows[j]).id
}

/// Exact test of `ahead`.
pub fn is_ahead(a: &TrackerCount, b: &TrackerCount, from_top: bool) -> (r: bool)
    ensures
        r == ahead(*a, *b, from_top),
{
    let (x, y) = if from_top {
        (a, b)
    } else {
        (b, a)
    };
    x.total > y.total || (x.total == y.total && (x.updated < y.updated || (x.updated == y.updated
        && x.id < y.id)))
}

/// The scoreboard order is transitive.
pub proof fn lemma_ahead_transitive(a: TrackerCount, b: TrackerCount, c: TrackerCount, from_top: bool)
    requires
        ahead(a, b, from_top),
        ahead(b, c, from_top),
    ensures
        ahead(a, c, from_top),
{
}

/// Of two rows with different ids, exactly one comes before the other.
pub proof fn lemma_ahead_total(a: TrackerCount, b: TrackerCount, from_top: bool)
    requires
        a.id != b.id,
    ensures
        ahead(a, b, from_top) || ahead(b, a, from_top),
        !(ahead(a, b, from_top) && ahead(b, a, from_top)),
{
}

/// Where the flags mark exactly the rows of the scope that come before `x`,
/// their count is the position of `x`.
pub proof fn lemma_position_by_flags(
    rows: Seq<TrackerCount>,
    flags: Seq<bool>,
    stat: TrackerStat,
    guild_id: DiscordGuildId,
    x: TrackerCount,
    from_top: bool,
)
    requires
        flags.len() == rows.len(),
        forall|j: int|
            0 <= j < rows.len() ==> #[trigger] flags[j] == (in_scope(rows[j], stat, guild_id)
                && ahead(rows[j], x, from_top)),
    ensures
        position(rows, stat, guild_id, x, from_top) == count_set(flags),
    decreases rows.len(),
{
    if rows.len() > 0 {
        let n = rows.len() - 1;
        assert forall|j: int| 0 <= j < n implies #[trigger] flags.drop_last()[j] == (in_scope(
            rows.drop_last()[j],
            stat,
            guild_id,
        ) && ahead(rows.drop_last()[j], x, from_top)) by {
            assert(flags[j] == flags.drop_last()[j]);
        }
        assert(flags[n] == flags.last());
        lemma_position_by_flags(rows.drop_last(), flags.drop_last(), stat, guild_id, x, from_top);
    }
}

/// Where the flags mark only rows of the scope, at most the scope is counted;
/// where they mark all of them, exactly the scope.
pub proof fn lemma_scope_by_flags(
    rows: Seq<TrackerCount>,
    flags: Seq<bool>,
    stat: TrackerStat,
    guild_id: DiscordGuildId,
)
    requires
        flags.len() == rows.len(),
        forall|j: int| 0 <= j < rows.len() && #[trigger] flags[j] ==> in_scope(rows[j], stat, guild_id),
    ensures
        count_set(flags) <= scope_count(rows, stat, guild_id),
        (forall|j: int| 0 <= j < rows.len() && in_scope(rows[j], stat, guild_id) ==> #[trigger] flags[j])
            ==> count_set(flags) == scope_count(rows, stat, guild_id),
        (exists|j: int| 0 <= j < rows.len() && in_scope(rows[j], stat, guild_id) && !#[trigger] flags[j])
            ==> count_set(flags) < scope_count(rows, stat, guild_id),
    decreases rows.len(),
{
    if rows.len() > 0 {
        let n = rows.len() - 1;
        let r0 = rows.drop_last();
        let f0 = flags.drop_last();
        assert forall|j: int| 0 <= j < n && #[trigger] f0[j] implies in_scope(r0[j], stat, guild_id) by {
            assert(flags[j] == f0[j]);
        }
        lemma_scope_by_flags(r0, f0, stat, guild_id);
        if forall|j: int| 0 <= j < rows.len() && in_scope(rows[j], stat, guild_id) ==> #[trigger] flags[j] {
            assert forall|j: int| 0 <= j < n && in_scope(r0[j], stat, guild_id) implies #[trigger] f0[j] by {
                assert(flags[j] == f0[j]);
                assert(rows[j] == r0[j]);
            }
        }
        if exists|j: int| 0 <= j < rows.len() && in_scope(rows[j], stat, guild_id) && !#[trigger] flags[j] {
            let j = choose|j: int| 0 <= j < rows.len() && in_scope(rows[j], stat, guild_id) && !#[trigger] flags[j];
            if j < n {
                assert(flags[j] == f0[j]);
                assert(rows[j] == r0[j]);
            }
        }
    }
}

/// The scope holds no more rows than there are.
pub proof fn lemma_scope_count_bound(rows: Seq<TrackerCount>, stat: TrackerStat, guild_id: DiscordGuildId)
    ensures
        scope_count(rows, stat, guild_id) <= rows.len(),
    decreases rows.len(),
{
    if rows.len() > 0 {
        lemma_scope_count_bound(rows.drop_last(), stat, guild_id);
    }
}

/// A row that comes before another has a smaller position, when it is itself
/// a row of the scope.
pub proof fn lemma_position_monotone(
    rows: Seq<TrackerCount>,
    stat: TrackerStat,
    guild_id: DiscordGuildId,
    a: TrackerCount,
    b: TrackerCount,
    from_top: bool,
)
    requires
        ahead(a, b, from_top),
    ensures
        position(rows, stat, guild_id, a, from_top) <= position(rows, stat, guild_id, b, from_top),
        rows.contains(a) && in_scope(a, stat, guild_id) ==> position(rows, stat, guild_id, a, from_top)
            < position(rows, stat, guild_id, b, from_top),
    decreases rows.len(),
{
    if rows.len() > 0 {
        lemma_position_monotone(rows.drop_last(), stat, guild_id, a, b, from_top);
        if in_scope(rows.last(), stat, guild_id) && ahead(rows.last(), a, from_top) {
            lemma_ahead_transitive(rows.last(), a, b, from_top);
        }
        if rows.contains(a) && rows.last() != a {
            let j = choose|j: int| 0 <= j < rows.len() && rows[j] == a;
            assert(rows.drop_last()[j] == a);
        }
    }
}


/// No flag set, no count.
pub proof fn lemma_count_set_none(flags: Seq<bool>)
    requires
        forall|j: int| 0 <= j < flags.len() ==> !#[trigger] flags[j],
    ensures
        count_set(flags) == 0,
    decreases flags.len(),
{
    if flags.len() > 0 {
        assert forall|j: int| 0 <= j < flags.len() - 1 implies !#[trigger] flags.drop_last()[j] by {
            assert(flags[j] == flags.drop_last()[j]);
        }
        lemma_count_set_none(flags.drop_last());
    }
}

/// Setting one more flag adds one to the count.
pub proof fn lemma_count_set_update(flags: Seq<bool>, i: int)
    requires
        0 <= i < flags.len(),
        !flags[i],
    ensures
        count_set(flags.update(i, true)) == count_set(flags) + 1,
    decreases flags.len(),
{
    let g = flags.update(i, true);
    if i == flags.len() - 1 {
        assert(g.drop_last() =~= flags.drop_last());
    } else {
        assert(g.drop_last() =~= flags.drop_last().update(i, true));
        lemma_count_set_update(flags.drop_last(), i);
    }
}

/// The length of the window at `offset` of at most `limit` rows, out of
/// `count` rows.
pub open spec fn window_len(count: int, offset: int, limit: int) -> int {
    if offset < count {
        if limit < count - offset {
            limit
        } else {
            count - offset
        }
    } else {
        0
    }
}

/// `w` is the window of at most `limit` rows of the scope starting at place
/// `offset` (0-based), read from the top or from the bottom: its `i`-th row is
/// the row of the scope at place `offset + i`.
pub open spec fn is_window(
    rows: Seq<TrackerCount>,
    stat: TrackerStat,
    guild_id: DiscordGuildId,
    offset: int,
    limit: int,
    from_top: bool,
    w: Seq<TrackerCount>,
) -> bool {
    &&& w.len() == window_len(scope_count(rows, stat, guild_id) as int, offset, limit)
    &&& forall|i: int|
        0 <= i < w.len() ==> rows.contains(#[trigger] w[i]) && in_scope(w[i], stat, guild_id)
            && position(rows, stat, guild_id, w[i], from_top) == offset + i
}


/// Two rows that neither comes before the other in the scoreboard order.
pub open spec fn tied(a: TrackerCount, b: TrackerCount) -> bool {
    a.total == b.total && a.updated == b.updated && a.id == b.id
}

/// The number of rows of the scope tied with `x`.
pub open spec fn tie_count(rows: Seq<TrackerCount>, stat: TrackerStat, guild_id: DiscordGuildId, x: TrackerCount) -> nat
    decreases rows.len(),
{
    if rows.len() == 0 {
        0
    } else {
        tie_count(rows.drop_last(), stat, guild_id, x) + if in_scope(rows.last(), stat, guild_id) && tied(
            rows.last(),
            x,
        ) {
            1nat
        } else {
            0nat
        }
    }
}

/// Every row of the scope comes before `x`, after it, or is tied with it.
pub proof fn lemma_position_sum(rows: Seq<TrackerCount>, stat: TrackerStat, guild_id: DiscordGuildId, x: TrackerCount)
    ensures
        position(rows, stat, guild_id, x, true) + position(rows, stat, guild_id, x, false) + tie_count(
            rows,
            stat,
            guild_id,
            x,
        ) == scope_count(rows, stat, guild_id),
    decreases rows.len(),
{
    if rows.len() > 0 {
        lemma_position_sum(rows.drop_last(), stat, guild_id, x);
    }
}

/// With strictly increasing ids, a row of the scope is tied with itself only.
pub proof fn lemma_tie_count_one(rows: Seq<TrackerCount>, stat: TrackerStat, guild_id: DiscordGuildId, x: TrackerCount)
    requires
        ids_increasing(rows),
        rows.contains(x),
        in_scope(x, stat, guild_id),
    ensures
        tie_count(rows, stat, guild_id, x) == 1,
    decreases rows.len(),
{
    let dl = rows.drop_last();
    assert(ids_increasing(dl)) by {
        assert forall|a: int, b: int| 0 <= a < b < dl.len() implies (#[trigger] dl[a]).id < (#[trigger] dl[b]).id by {
            assert(dl[a] == rows[a] && dl[b] == rows[b]);
        }
    }
    if rows.last() == x {
        assert forall|i: int| 0 <= i < dl.len() implies (#[trigger] dl[i]).id != x.id by {
            assert(dl[i] == rows[i]);
        }
        lemma_tie_count_zero(dl, stat, guild_id, x);
    } else {
        let j = choose|j: int| 0 <= j < rows.len() && rows[j] == x;
        assert(dl[j] == x);
        assert(rows[j].id < rows[rows.len() - 1].id);
        lemma_tie_count_one(dl, stat, guild_id, x);
    }
}

/// No row with the id of `x`, no tie.
pub proof fn lemma_tie_count_zero(rows: Seq<TrackerCount>, stat: TrackerStat, guild_id: DiscordGuildId, x: TrackerCount)
    requires
        forall|i: int| 0 <= i < rows.len() ==> (#[trigger] rows[i]).id != x.id,
    ensures
        tie_count(rows, stat, guild_id, x) == 0,
    decreases rows.len(),
{
    if rows.len() > 0 {
        let dl = rows.drop_last();
        assert forall|i: int| 0 <= i < dl.len() implies (#[trigger] dl[i]).id != x.id by {
            assert(dl[i] == rows[i]);
        }
        lemma_tie_count_zero(dl, stat, guild_id, x);
    }
}

/// Read from the bottom, a row of the scope has the place that mirrors its
/// place read from the top.
pub proof fn lemma_position_mirror(rows: Seq<TrackerCount>, stat: TrackerStat, guild_id: DiscordGuildId, x: TrackerCount)
    requires
        ids_increasing(rows),
        rows.contains(x),
        in_scope(x, stat, guild_id),
    ensures
        position(rows, stat, guild_id, x, true) == scope_count(rows, stat, guild_id) - 1 - position(
            rows,
            stat,
            guild_id,
            x,
            false,
        ),
{
    lemma_position_sum(rows, stat, guild_id, x);
    lemma_tie_count_one(rows, stat, guild_id, x);
}

/// `a` ranks above `b`: a higher total, or the same total and an earlier
/// update. Unlike `precedes`, rows that agree in both are not told apart.
pub open spec fn outranks(a: TrackerCount, b: TrackerCount) -> bool {
    a.total > b.total || (a.total == b.total && a.updated < b.updated)
}

/// The number of rows of the scope that rank above `x`.
pub open spec fn rank_count(rows: Seq<TrackerCount>, stat: TrackerStat, guild_id: DiscordGuildId, x: TrackerCount) -> nat
    decreases rows.len(),
{
    if rows.len() == 0 {
        0
    } else {
        rank_count(rows.drop_last(), stat, guild_id, x) + if in_scope(rows.last(), stat, guild_id) && outranks(
            rows.last(),
            x,
        ) {
            1nat
        } else {
            0nat
        }
    }
}

/// Exact test of `outranks`.
pub fn is_outranking(a: &TrackerCount, b: &TrackerCount) -> (r: bool)
    ensures
        r == outranks(*a, *b),
{
    a.total > b.total || (a.total == b.total && a.updated < b.updated)
}

/// Fewer rows rank above a row of the scope than the scope holds.
pub proof fn lemma_rank_count_bound(rows: Seq<TrackerCount>, stat: TrackerStat, guild_id: DiscordGuildId, x: TrackerCount)
    ensures
        rank_count(rows, stat, guild_id, x) <= scope_count(rows, stat, guild_id),
        rows.contains(x) && in_scope(x, stat, guild_id) ==> rank_count(rows, stat, guild_id, x) < scope_count(
            rows,
            stat,
            guild_id,
        ),
    decreases rows.len(),
{
    if rows.len() > 0 {
        lemma_rank_count_bound(rows.drop_last(), stat, guild_id, x);
        if rows.contains(x) && rows.last() != x {
            let j = choose|j: int| 0 <= j < rows.len() && rows[j] == x;
            assert(rows.drop_last()[j] == x);
        }
    }
}

/// A row that ranks above another has fewer rows above it, when it is itself
/// a row of the scope.
pub proof fn lemma_rank_count_monotone(
    rows: Seq<TrackerCount>,
    stat: TrackerStat,
    guild_id: DiscordGuildId,
    a: TrackerCount,
    b: TrackerCount,
)
    requires
        outranks(a, b),
    ensures
        rank_count(rows, stat, guild_id, a) <= rank_count(rows, stat, guild_id, b),
        rows.contains(a) && in_scope(a, stat, guild_id) ==> rank_count(rows, stat, guild_id, a) < rank_count(
            rows,
            stat,
            guild_id,
            b,
        ),
    decreases rows.len(),
{
    if rows.len() > 0 {
        lemma_rank_count_monotone(rows.drop_last(), stat, guild_id, a, b);
        if rows.contains(a) && rows.last() != a {
            let j = choose|j: int| 0 <= j < rows.len() && rows[j] == a;
            assert(rows.drop_last()[j] == a);
        }
    }
}

} // verus!
