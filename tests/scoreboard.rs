use rankledger::{
    resolve, CounterStore, Locator, NewTrackerCountChange, ScoreboardError, TrackerCount,
    TrackerStat,
};

const GUILD: u64 = 900;
const A: u64 = 21;
const B: u64 = 22;
const C: u64 = 23;

fn sample() -> CounterStore {
    let mut store = CounterStore::new();
    for (user, total, time) in [(A, 100, 1), (B, 100, 2), (C, 50, 3)] {
        let change = NewTrackerCountChange {
            stat: TrackerStat::PersonnelSaved,
            guild_id: GUILD,
            updater: user,
            target: user,
            total,
            note: None,
        };
        TrackerCount::adjust_count(&mut store, change, time).unwrap();
    }
    store
}

fn board(store: &CounterStore, me: u64, at: Locator, limit: i64) -> (i64, Vec<u64>) {
    let b = resolve(store, TrackerStat::PersonnelSaved, GUILD, me, at, limit).unwrap();
    (b.start_rank, b.rows.iter().map(|r| r.user_id).collect())
}

#[test]
fn locator_top() {
    assert_eq!((1, vec![A, B]), board(&sample(), A, Locator::Top, 2));
}

#[test]
fn locator_bottom() {
    assert_eq!((3, vec![C]), board(&sample(), A, Locator::Bottom, 1));
    assert_eq!((1, vec![A, B, C]), board(&sample(), A, Locator::Bottom, 10));
}

#[test]
fn locator_rank() {
    assert_eq!((2, vec![B]), board(&sample(), A, Locator::Rank(1), 1));
    assert_eq!((11, vec![]), board(&sample(), A, Locator::Rank(10), 1));
}

#[test]
fn locator_someone() {
    let store = sample();
    assert_eq!(2, TrackerCount::get_rank_of(&store, TrackerStat::PersonnelSaved, GUILD, C));
    assert_eq!((2, vec![B, C]), board(&store, A, Locator::Someone(C), 2));
}

#[test]
fn locator_me_near_the_top_is_not_shifted() {
    assert_eq!((1, vec![A, B, C]), board(&sample(), A, Locator::Me, 10));
    assert_eq!((2, vec![B, C]), board(&sample(), C, Locator::Me, 2));
}

#[test]
fn locator_me_without_history() {
    // A subject without a row ranks after everyone: rank 3, start 3 - 1 = 2.
    assert_eq!((3, vec![C]), board(&sample(), 99, Locator::Me, 2));
}

#[test]
fn zero_limit_is_empty() {
    assert_eq!((1, vec![]), board(&sample(), A, Locator::Bottom, 0));
    assert_eq!((1, vec![]), board(&CounterStore::new(), A, Locator::Me, 0));
    assert_eq!((1, vec![]), board(&sample(), A, Locator::Rank(-1), 0));
    assert_eq!((1, vec![]), board(&sample(), A, Locator::Rank(i64::MAX), 0));
}

#[test]
fn bad_numbers_are_rejected() {
    let store = sample();
    let r = resolve(&store, TrackerStat::PersonnelSaved, GUILD, A, Locator::Top, -1);
    assert_eq!(Some(ScoreboardError::NegativeLimit), r.err());
    let r = resolve(&store, TrackerStat::PersonnelSaved, GUILD, A, Locator::Rank(-1), 5);
    assert_eq!(Some(ScoreboardError::RankOutOfRange), r.err());
    let r = resolve(&store, TrackerStat::PersonnelSaved, GUILD, A, Locator::Rank(i64::MAX), 5);
    assert_eq!(Some(ScoreboardError::RankOutOfRange), r.err());
}
