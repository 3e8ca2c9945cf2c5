use rankledger::{
    AdjustmentError, CounterStore, NewTrackerCountChange, TrackerCount, TrackerStat,
};

const GUILD: u64 = 900;
const ADMIN: u64 = 1;

fn change(target: u64, delta: i128) -> NewTrackerCountChange {
    NewTrackerCountChange {
        stat: TrackerStat::PersonnelSaved,
        guild_id: GUILD,
        updater: ADMIN,
        target,
        total: delta,
        note: None,
    }
}

fn adjust(store: &mut CounterStore, target: u64, delta: i128, now: i64) -> i128 {
    TrackerCount::adjust_count(store, change(target, delta), now).unwrap()
}

fn replayed_total(store: &CounterStore, target: u64) -> i128 {
    let mut total: i128 = 0;
    for entry in store.ledger() {
        let c = &entry.change;
        if c.stat == TrackerStat::PersonnelSaved && c.guild_id == GUILD && c.target == target {
            total = (total + c.total).max(0);
        }
    }
    total
}

#[test]
fn floor_is_applied_after_each_change() {
    let mut store = CounterStore::new();
    assert_eq!(1, adjust(&mut store, 10, 1, 1));
    assert_eq!(0, adjust(&mut store, 10, -5, 2));
    assert_eq!(2, adjust(&mut store, 10, 2, 3));

    // Clamping each step gives 2; clamping the sum (-3) would give 0.
    assert_eq!(0, adjust(&mut store, 11, -5, 4));
    assert_eq!(3, adjust(&mut store, 11, 3, 5));
    assert_eq!(2, adjust(&mut store, 11, -1, 6));
    assert_eq!(2, TrackerCount::load_for(&store, TrackerStat::PersonnelSaved, GUILD, 11).unwrap().total);
    assert_eq!(2, replayed_total(&store, 11));
}

#[test]
fn first_change_creates_a_floored_row() {
    let mut store = CounterStore::new();
    assert_eq!(0, adjust(&mut store, 10, -7, 5));
    let row = TrackerCount::load_for(&store, TrackerStat::PersonnelSaved, GUILD, 10).unwrap();
    assert_eq!(0, row.total);
    assert_eq!(5, row.created);
    assert_eq!(5, row.updated);
    assert_eq!(1, store.ledger().len());
    assert_eq!(-7, store.ledger()[0].change.total);
    assert_eq!(5, store.ledger()[0].created);
}

#[test]
fn update_refreshes_time_and_keeps_creation() {
    let mut store = CounterStore::new();
    adjust(&mut store, 10, 4, 5);
    adjust(&mut store, 10, 6, 9);
    let row = TrackerCount::load_for(&store, TrackerStat::PersonnelSaved, GUILD, 10).unwrap();
    assert_eq!(10, row.total);
    assert_eq!(5, row.created);
    assert_eq!(9, row.updated);
    assert_eq!(1, store.rows().len());
}

#[test]
fn failed_aggregate_write_leaves_nothing_behind() {
    let mut store = CounterStore::new();
    adjust(&mut store, 10, i128::MAX - 1, 1);
    let before_ledger = store.ledger().len();
    let before_row = TrackerCount::load_for(&store, TrackerStat::PersonnelSaved, GUILD, 10).unwrap();
    let r = TrackerCount::adjust_count(&mut store, change(10, 5), 2);
    assert_eq!(Err(AdjustmentError::AggregateWriteFailed), r);
    assert_eq!(before_ledger, store.ledger().len());
    assert_eq!(Some(before_row), TrackerCount::load_for(&store, TrackerStat::PersonnelSaved, GUILD, 10));
    // A change that fits still goes through afterwards.
    assert_eq!(i128::MAX, adjust(&mut store, 10, 1, 3));
}

#[test]
fn equal_total_and_time_share_a_rank() {
    let mut store = CounterStore::new();
    adjust(&mut store, 10, 5, 5);
    adjust(&mut store, 11, 5, 5);
    adjust(&mut store, 12, 9, 6);
    let rank = |u| TrackerCount::get_rank_of(&store, TrackerStat::PersonnelSaved, GUILD, u);
    assert_eq!(0, rank(12));
    assert_eq!(1, rank(10));
    assert_eq!(1, rank(11));
    assert_eq!(3, rank(99));
}

#[test]
fn missing_counter_loads_nothing() {
    let mut store = CounterStore::new();
    adjust(&mut store, 10, 3, 1);
    assert_eq!(None, TrackerCount::load_for(&store, TrackerStat::PersonnelSaved, GUILD, 11));
    assert_eq!(None, TrackerCount::load_for(&store, TrackerStat::PersonnelSaved, GUILD + 1, 10));
}

#[test]
fn counts_are_per_scope() {
    let mut store = CounterStore::new();
    adjust(&mut store, 10, 3, 1);
    adjust(&mut store, 11, 3, 2);
    TrackerCount::adjust_count(
        &mut store,
        NewTrackerCountChange { guild_id: GUILD + 1, ..change(10, 8) },
        3,
    )
    .unwrap();
    assert_eq!(2, TrackerCount::count_rows(&store, TrackerStat::PersonnelSaved, GUILD));
    assert_eq!(1, TrackerCount::count_rows(&store, TrackerStat::PersonnelSaved, GUILD + 1));
    assert_eq!(0, TrackerCount::count_rows(&store, TrackerStat::PersonnelSaved, GUILD + 2));
}

#[test]
fn rank_follows_total_then_update_time() {
    let mut store = CounterStore::new();
    adjust(&mut store, 10, 50, 1);
    adjust(&mut store, 11, 100, 3);
    adjust(&mut store, 12, 100, 2);
    let rank = |u| TrackerCount::get_rank_of(&store, TrackerStat::PersonnelSaved, GUILD, u);
    assert_eq!(0, rank(12));
    assert_eq!(1, rank(11));
    assert_eq!(2, rank(10));
}

#[test]
fn absent_subject_ranks_after_zero_totals() {
    let mut store = CounterStore::new();
    adjust(&mut store, 10, 5, 1);
    adjust(&mut store, 11, -5, 2);
    adjust(&mut store, 12, 0, 3);
    let rank = |u| TrackerCount::get_rank_of(&store, TrackerStat::PersonnelSaved, GUILD, u);
    assert_eq!(0, rank(10));
    assert_eq!(1, rank(11));
    assert_eq!(2, rank(12));
    assert_eq!(3, rank(99));
}

#[test]
fn windows_continue_each_other() {
    let mut store = CounterStore::new();
    for (i, total) in [40, 10, 30, 50, 20].iter().enumerate() {
        adjust(&mut store, 10 + i as u64, *total, i as i64);
    }
    let totals = |rows: Vec<TrackerCount>| rows.iter().map(|r| r.total).collect::<Vec<_>>();
    let first = TrackerCount::load_asc(&store, TrackerStat::PersonnelSaved, GUILD, 0, 2);
    let next = TrackerCount::load_asc(&store, TrackerStat::PersonnelSaved, GUILD, 2, 2);
    let last = TrackerCount::load_asc(&store, TrackerStat::PersonnelSaved, GUILD, 4, 2);
    assert_eq!(vec![50, 40], totals(first));
    assert_eq!(vec![30, 20], totals(next));
    assert_eq!(vec![10], totals(last));
    assert!(TrackerCount::load_asc(&store, TrackerStat::PersonnelSaved, GUILD, 5, 2).is_empty());
    assert!(TrackerCount::load_asc(&store, TrackerStat::PersonnelSaved, GUILD, 0, 0).is_empty());
}

#[test]
fn descending_window_reverses_the_tie_break() {
    let mut store = CounterStore::new();
    adjust(&mut store, 10, 100, 1);
    adjust(&mut store, 11, 100, 2);
    adjust(&mut store, 12, 50, 3);
    let users = |rows: Vec<TrackerCount>| rows.iter().map(|r| r.user_id).collect::<Vec<_>>();
    assert_eq!(vec![12, 11, 10], users(TrackerCount::load_desc(&store, TrackerStat::PersonnelSaved, GUILD, 0, 5)));
    assert_eq!(vec![11], users(TrackerCount::load_desc(&store, TrackerStat::PersonnelSaved, GUILD, 1, 1)));
    assert_eq!(vec![10, 11, 12], users(TrackerCount::load_asc(&store, TrackerStat::PersonnelSaved, GUILD, 0, 5)));
}

#[test]
fn purge_closes_the_counter_in_the_ledger() {
    let mut store = CounterStore::new();
    adjust(&mut store, 10, 100, 1);
    adjust(&mut store, 11, 7, 2);
    let id = TrackerCount::load_for(&store, TrackerStat::PersonnelSaved, GUILD, 10).unwrap().id;
    assert_eq!(Ok(1), TrackerCount::delete(&mut store, 55, &[id, 12345], 9));
    assert_eq!(None, TrackerCount::load_for(&store, TrackerStat::PersonnelSaved, GUILD, 10));
    let last = store.ledger().last().unwrap();
    assert_eq!(-100, last.change.total);
    assert_eq!(55, last.change.updater);
    assert_eq!(10, last.change.target);
    assert_eq!(9, last.created);
    assert_eq!(0, replayed_total(&store, 10));
    assert_eq!(7, replayed_total(&store, 11));
    assert_eq!(1, store.rows().len());
    // A later change starts the counter afresh.
    assert_eq!(4, adjust(&mut store, 10, 4, 10));
    assert_eq!(4, replayed_total(&store, 10));
}

#[test]
fn purge_of_unknown_ids_deletes_nothing() {
    let mut store = CounterStore::new();
    adjust(&mut store, 10, 100, 1);
    assert_eq!(Ok(0), TrackerCount::delete(&mut store, 55, &[777], 2));
    assert_eq!(Ok(0), TrackerCount::delete(&mut store, 55, &[], 3));
    assert_eq!(1, store.ledger().len());
    assert_eq!(1, store.rows().len());
}

#[test]
fn purge_of_a_repeated_id() {
    let mut store = CounterStore::new();
    adjust(&mut store, 10, 30, 1);
    let id = store.rows()[0].id;
    assert_eq!(Ok(1), TrackerCount::delete(&mut store, 55, &[id, id], 4));
    assert_eq!(2, store.ledger().len());
    assert_eq!(-30, store.ledger()[1].change.total);
    assert_eq!(4, store.ledger()[1].created);
    assert_eq!(0, TrackerCount::count_rows(&store, TrackerStat::PersonnelSaved, GUILD));
}

#[test]
fn statistics_are_counted_apart() {
    let mut store = CounterStore::new();
    adjust(&mut store, 10, 30, 1);
    let kills = NewTrackerCountChange { stat: TrackerStat::LegionKills, ..change(10, 4) };
    assert_eq!(Ok(4), TrackerCount::adjust_count(&mut store, kills, 2));
    assert_eq!(30, TrackerCount::load_for(&store, TrackerStat::PersonnelSaved, GUILD, 10).unwrap().total);
    assert_eq!(4, TrackerCount::load_for(&store, TrackerStat::LegionKills, GUILD, 10).unwrap().total);
    assert_eq!(0, TrackerCount::get_rank_of(&store, TrackerStat::LegionKills, GUILD, 10));
    assert_eq!(1, TrackerCount::count_rows(&store, TrackerStat::LegionKills, GUILD));
}
