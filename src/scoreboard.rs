use vstd::prelude::*;

use crate::counts::{DiscordGuildId, DiscordUserId, TrackerCount};
use crate::ranking::{in_scope, is_window, lemma_position_mirror, position, scope_count};
use crate::store::{subject_rank, well_formed, CounterStore};
use crate::tracker_stat::TrackerStat;

verus! {

/// Where on the scoreboard a window is taken.
#[derive(Debug, Clone, Copy, PartialEq, Eq, Hash, Structural)]
pub enum Locator {
    /// Around the subject asking.
    Me,
    /// The last rows.
    Bottom,
    /// The first rows.
    Top,
    /// Around the given subject.
    Someone(DiscordUserId),
    /// From the given 0-based rank on.
    Rank(i64),
}

/// A window of the scoreboard: its rows, the first of which has the 1-based
/// rank `start_rank`.
#[derive(Debug, Clone)]
pub struct Scoreboard {
    pub start_rank: i64,
    pub rows: Vec<TrackerCount>,
}

/// A window that cannot be described by the numbers asked for.
#[derive(Debug, Copy, Clone, PartialEq, Eq, Structural)]
pub enum ScoreboardError {
    /// The limit is negative.
    NegativeLimit,
    /// The rank is negative, or too large for the rank after it to be given
    /// (asked for with a limit above zero).
    RankOutOfRange,
}

/// The error that resolving `at` with `limit` meets, if any. A limit of zero
/// meets none, whatever the locator.
pub open spec fn resolve_error(at: Locator, limit: int) -> Option<ScoreboardError> {
    if limit == 0 {
        None
    } else if limit < 0 {
        Some(ScoreboardError::NegativeLimit)
    } else {
        match at {
            Locator::Rank(r) => if r < 0 || r == i64::MAX {
                Some(ScoreboardError::RankOutOfRange)
            } else {
                None
            },
            _ => None,
        }
    }
}

/// The 0-based place where a window of `limit` rows centred on `rank` starts:
/// half a window above it, but never above the top.
pub open spec fn centred_start(rank: int, limit: int) -> int {
    if rank - limit / 2 > 0 {
        rank - limit / 2
    } else {
        0
    }
}

/// The 0-based place where the window that `at` asks for starts.
pub open spec fn window_start(
    rows: Seq<TrackerCount>,
    stat: TrackerStat,
    guild_id: DiscordGuildId,
    me: DiscordUserId,
    at: Locator,
    limit: int,
) -> int {
    match at {
        Locator::Top => 0,
        Locator::Rank(r) => r as int,
        Locator::Bottom => if scope_count(rows, stat, guild_id) > limit {
            scope_count(rows, stat, guild_id) - limit
        } else {
            0
        },
        Locator::Me => centred_start(subject_rank(rows, stat, guild_id, me), limit),
        Locator::Someone(u) => centred_start(subject_rank(rows, stat, guild_id, u), limit),
    }
}

/// Resolves the window that `at` asks for, of at most `limit` rows, on the
/// scoreboard of `stat` in `guild_id`; `me` is the subject asking. A limit of
/// zero gives an empty window at rank 1 without reading the store.
pub fn resolve(
    store: &CounterStore,
    stat: TrackerStat,
    guild_id: DiscordGuildId,
    me: DiscordUserId,
    at: Locator,
    limit: i64,
) -> (r: Result<Scoreboard, ScoreboardError>)
    requires
        well_formed(store@),
    ensures
        match r {
            Err(e) => resolve_error(at, limit as int) == Some(e),
            Ok(board) => resolve_error(at, limit as int) is None && if limit == 0 {
                board.start_rank == 1 && board.rows@.len() == 0
            } else {
                board.start_rank == window_start(store@.counts, stat, guild_id, me, at, limit as int) + 1
                    && is_window(
                    store@.counts,
                    stat,
                    guild_id,
                    window_start(store@.counts, stat, guild_id, me, at, limit as int),
                    limit as int,
                    true,
                    board.rows@,
                )
            },
        },
{
    if limit == 0 {
        return Ok(Scoreboard { start_rank: 1, rows: Vec::new() });
    }
    if limit < 0 {
        return Err(ScoreboardError::NegativeLimit);
    }
    if let Locator::Rank(r) = at {
        if r < 0 || r == i64::MAX {
            return Err(ScoreboardError::RankOutOfRange);
        }
    }
    let start: i64 = match at {
        Locator::Top => 0,
        Locator::Rank(r) => r,
        Locator::Bottom => {
            let count = TrackerCount::count_rows(store, stat, guild_id);
            // The bottom rows are read from the bottom, then turned around.
            let last = TrackerCount::load_desc(store, stat, guild_id, 0, limit as u64);
            let rows = reversed(store, stat, guild_id, &last);
            return Ok(Scoreboard { start_rank: count - last.len() as i64 + 1, rows });
        },
        Locator::Me => centred(TrackerCount::get_rank_of(store, stat, guild_id, me), limit),
        Locator::Someone(u) => centred(TrackerCount::get_rank_of(store, stat, guild_id, u), limit),
    };
    let rows = TrackerCount::load_asc(store, stat, guild_id, start as u64, limit as u64);
    Ok(Scoreboard { start_rank: start + 1, rows })
}

/// `centred_start`, for a rank that is not negative.
fn centred(rank: i64, limit: i64) -> (r: i64)
    requires
        0 <= rank < i64::MAX,
        0 <= limit,
    ensures
        r == centred_start(rank as int, limit as int),
        0 <= r <= rank,
{
    let half = limit / 2;
    if rank - half > 0 {
        rank - half
    } else {
        0
    }
}

/// The rows of a window read from the bottom, turned into the same rows read
/// from the top.
fn reversed(store: &CounterStore, stat: TrackerStat, guild_id: DiscordGuildId, last: &Vec<TrackerCount>) -> (r: Vec<
    TrackerCount,
>)
    requires
        well_formed(store@),
        forall|i: int|
            0 <= i < last@.len() ==> store@.counts.contains(#[trigger] last@[i]) && in_scope(
                last@[i],
                stat,
                guild_id,
            ) && position(store@.counts, stat, guild_id, last@[i], false) == i,
    ensures
        r@.len() == last@.len(),
        forall|i: int|
            0 <= i < r@.len() ==> store@.counts.contains(#[trigger] r@[i]) && in_scope(
                r@[i],
                stat,
                guild_id,
            ) && position(store@.counts, stat, guild_id, r@[i], true) == scope_count(
                store@.counts,
                stat,
                guild_id,
            ) - last@.len() + i,
{
    let mut out: Vec<TrackerCount> = Vec::new();
    let mut k: usize = last.len();
    while k > 0
        invariant
            well_formed(store@),
            k <= last@.len(),
            out@.len() == last@.len() - k,
            forall|i: int| 0 <= i < out@.len() ==> #[trigger] out@[i] == last@[last@.len() - 1 - i],
        decreases k,
    {
        k = k - 1;
        out.push(last[k]);
    }
    proof {
        assert forall|i: int| 0 <= i < out@.len() implies store@.counts.contains(#[trigger] out@[i])
            && in_scope(out@[i], stat, guild_id) && position(
            store@.counts,
            stat,
            guild_id,
            out@[i],
            true,
        ) == scope_count(store@.counts, stat, guild_id) - last@.len() + i by {
            let j = last@.len() - 1 - i;
            assert(out@[i] == last@[j]);
            lemma_position_mirror(store@.counts, stat, guild_id, last@[j]);
        }
    }
    out
}

} // verus!
