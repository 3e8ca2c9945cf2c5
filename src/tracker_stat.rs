use vstd::prelude::*;

use crate::text::str_equals;

verus! {

/// The statistic that a tracked counter measures.
#[derive(Debug, Copy, Clone, PartialEq, Eq, Hash, Structural)]
pub enum TrackerStat {
    PersonnelSaved,
    LegionKills,
    IndustryProfit,
    NavalVictoryFourths,
    NavalTackleAssists,
    EventParticipation,
}

/// The stored name of a statistic.
pub open spec fn stat_key(stat: TrackerStat) -> Seq<char> {
    match stat {
        TrackerStat::PersonnelSaved => "industry_personnel_saved"@,
        TrackerStat::LegionKills => "legion_kills"@,
        TrackerStat::IndustryProfit => "industry_profit"@,
        TrackerStat::NavalVictoryFourths => "navy_victory_fourths"@,
        TrackerStat::NavalTackleAssists => "navy_tackle_assists"@,
        TrackerStat::EventParticipation => "event_participation"@,
    }
}

/// The command under which a statistic is reported.
pub open spec fn stat_command(stat: TrackerStat) -> Seq<char> {
    match stat {
        TrackerStat::PersonnelSaved => "industry saved_personnel"@,
        TrackerStat::LegionKills => "legion kill"@,
        TrackerStat::IndustryProfit => "industry profit"@,
        TrackerStat::NavalVictoryFourths => "navy victory"@,
        TrackerStat::NavalTackleAssists => "navy tackle_assist"@,
        TrackerStat::EventParticipation => "event participation"@,
    }
}

/// A string that names no statistic.
#[derive(Debug, Copy, Clone, PartialEq, Eq)]
pub struct ParseStatError;

impl TrackerStat {
    /// The name under which the statistic is stored.
    pub fn as_str(&self) -> (r: &'static str)
        ensures
            r@ == stat_key(*self),
    {
        match self {
            TrackerStat::PersonnelSaved => "industry_personnel_saved",
            TrackerStat::LegionKills => "legion_kills",
            TrackerStat::IndustryProfit => "industry_profit",
            TrackerStat::NavalVictoryFourths => "navy_victory_fourths",
            TrackerStat::NavalTackleAssists => "navy_tackle_assists",
            TrackerStat::EventParticipation => "event_participation",
        }
    }

    /// The command under which the statistic is reported.
    pub fn cmd_name(&self) -> (r: &'static str)
        ensures
            r@ == stat_command(*self),
    {
        match self {
            TrackerStat::PersonnelSaved => "industry saved_personnel",
            TrackerStat::LegionKills => "legion kill",
            TrackerStat::IndustryProfit => "industry profit",
            TrackerStat::NavalVictoryFourths => "navy victory",
            TrackerStat::NavalTackleAssists => "navy tackle_assist",
            TrackerStat::EventParticipation => "event participation",
        }
    }

    /// The statistic whose stored name is `s`, if any.
    pub fn parse(s: &str) -> (r: Option<TrackerStat>)
        ensures
            r matches Some(stat) ==> stat_key(stat) == s@,
            r is None ==> forall|stat: TrackerStat| stat_key(stat) != s@,
    {
        if str_equals(s, "industry_personnel_saved") {
            Some(TrackerStat::PersonnelSaved)
        } else if str_equals(s, "legion_kills") {
            Some(TrackerStat::LegionKills)
        } else if str_equals(s, "industry_profit") {
            Some(TrackerStat::IndustryProfit)
        } else if str_equals(s, "navy_victory_fourths") {
            Some(TrackerStat::NavalVictoryFourths)
        } else if str_equals(s, "navy_tackle_assists") {
            Some(TrackerStat::NavalTackleAssists)
        } else if str_equals(s, "event_participation") {
            Some(TrackerStat::EventParticipation)
        } else {
            None
        }
    }
}

impl From<TrackerStat> for &'static str {
    fn from(stat: TrackerStat) -> (r: &'static str) {
        match stat {
            TrackerStat::PersonnelSaved => "industry_personnel_saved",
            TrackerStat::LegionKills => "legion_kills",
            TrackerStat::IndustryProfit => "industry_profit",
            TrackerStat::NavalVictoryFourths => "navy_victory_fourths",
            TrackerStat::NavalTackleAssists => "navy_tackle_assists",
            TrackerStat::EventParticipation => "event_participation",
        }
    }
}

impl vstd::std_specs::convert::FromSpecImpl<TrackerStat> for &'static str {
    open spec fn obeys_from_spec() -> bool {
        true
    }

    open spec fn from_spec(stat: TrackerStat) -> &'static str {
        match stat {
            TrackerStat::PersonnelSaved => "industry_personnel_saved",
            TrackerStat::LegionKills => "legion_kills",
            TrackerStat::IndustryProfit => "industry_profit",
            TrackerStat::NavalVictoryFourths => "navy_victory_fourths",
            TrackerStat::NavalTackleAssists => "navy_tackle_assists",
            TrackerStat::EventParticipation => "event_participation",
        }
    }
}

impl std::str::FromStr for TrackerStat {
    type Err = ParseStatError;

    fn from_str(s: &str) -> Result<TrackerStat, ParseStatError> {
        match TrackerStat::parse(s) {
            Some(stat) => Ok(stat),
            None => Err(ParseStatError),
        }
    }
}

} // verus!
