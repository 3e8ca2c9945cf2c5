use std::str::FromStr;

use rankledger::{fetch_branch_display_name, ParseStatError, TrackerStat};

#[test]
fn test_stat_serde() {
    assert_eq!("industry_personnel_saved", <&'static str>::from(TrackerStat::PersonnelSaved));
    assert_eq!(Ok(TrackerStat::PersonnelSaved), TrackerStat::from_str("industry_personnel_saved"));
}

#[test]
fn unknown_stat_name_is_rejected() {
    assert_eq!(Err(ParseStatError), TrackerStat::from_str("industry_personnel"));
    assert_eq!(None, TrackerStat::parse(""));
}

#[test]
fn stat_command_name() {
    assert_eq!("industry saved_personnel", TrackerStat::PersonnelSaved.cmd_name());
    assert_eq!("industry_personnel_saved", TrackerStat::PersonnelSaved.as_str());
}

#[test]
fn branch_display_names() {
    assert_eq!("Navy", fetch_branch_display_name("navy"));
    assert_eq!("Legion", fetch_branch_display_name("legion"));
    assert_eq!("Industry", fetch_branch_display_name("industry"));
    assert_eq!("Main", fetch_branch_display_name("main"));
    assert_eq!("Other", fetch_branch_display_name("Navy"));
    assert_eq!("Other", fetch_branch_display_name(""));
}

#[test]
fn every_stat_name_parses_back() {
    let all = [
        TrackerStat::PersonnelSaved,
        TrackerStat::LegionKills,
        TrackerStat::IndustryProfit,
        TrackerStat::NavalVictoryFourths,
        TrackerStat::NavalTackleAssists,
        TrackerStat::EventParticipation,
    ];
    for stat in all {
        assert_eq!(Some(stat), TrackerStat::parse(stat.as_str()));
        assert_eq!(stat.as_str(), <&'static str>::from(stat));
    }
    assert_eq!("legion kill", TrackerStat::LegionKills.cmd_name());
    assert_eq!("navy tackle_assist", TrackerStat::NavalTackleAssists.cmd_name());
}
