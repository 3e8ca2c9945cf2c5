//! A ledger-backed counter store with floor-at-zero totals and a stable ranking,
//! together with the scoreboard queries that read from it.
pub mod counts;
pub mod laws;
pub mod monthly_goal;
pub mod purge;
pub mod ranking;
pub mod scoreboard;
pub mod store;
mod text;
pub mod tracker_stat;

pub use counts::{
    AdjustmentError, DiscordGuildId, DiscordUserId, NewTrackerCountChange, Timestamp, TrackerCount,
    TrackerCountChange,
};
pub use monthly_goal::{fetch_branch_display_name, MonthlyGoalUpdate};
pub use scoreboard::{resolve, Locator, Scoreboard, ScoreboardError};
pub use store::CounterStore;
pub use tracker_stat::{ParseStatError, TrackerStat};
