//! Entity store tests: creation, lookups and the aggregated views.

use oaken::models::game::GameState;
use oaken::models::league::{League, LeagueInfo};
use oaken::models::matchup::Matchup;
use oaken::models::schedule::Schedule;
use oaken::models::team::{Team, TeamInfo};
use oaken::models::tier::Tier;
use oaken::store::Store;
use oaken::Error;

fn small_world() -> Store {
    let mut store = Store::new(2, 2023, 1);
    let east = League::create(&mut store, "East".to_string(), "E".to_string());
    let west = League::create(&mut store, "West".to_string(), "W".to_string());
    let t1 = Tier::create(&mut store, "Tier 1".to_string(), 1, east.id);
    let t2 = Tier::create(&mut store, "Tier 1".to_string(), 1, west.id);
    Team::create(&mut store, "Ash".to_string(), 10, t1.id, east.id);
    Team::create(&mut store, "Birch".to_string(), 20, t1.id, east.id);
    Team::create(&mut store, "Cedar".to_string(), 30, t2.id, west.id);
    Team::create(&mut store, "Dogwood".to_string(), 40, t2.id, west.id);
    store
}

#[test]
fn identifiers_are_dense_and_lookups_resolve() {
    let store = small_world();
    assert_eq!(League::get(&store, &2).unwrap().name, "West");
    assert_eq!(Tier::get(&store, &1).unwrap().league_id, 1);
    assert_eq!(Team::get(&store, &3).unwrap().name, "Cedar");
    let by_name = League::get_by_name(&store, "East".to_string()).unwrap();
    assert_eq!(by_name.id, 1);
    let tier = Tier::get_by_name(&store, "Tier 1".to_string(), 2).unwrap();
    assert_eq!(tier.id, 2);
}

#[test]
fn division_rosters_follow_the_tier() {
    let store = small_world();
    let east_roster = Team::get_by_division(&store, 1, 1);
    assert_eq!(east_roster.len(), 2);
    assert_eq!(east_roster[0].name, "Ash");
    // A tier queried under the wrong league yields no roster at all.
    assert!(Team::get_by_division(&store, 1, 2).is_empty());
    assert!(Team::get_by_division(&store, 9, 1).is_empty());
}

#[test]
fn league_and_team_views_aggregate_their_owners() {
    let store = small_world();
    let infos = LeagueInfo::get_all(&store);
    assert_eq!(infos.len(), 2);
    assert_eq!(infos[0].name, "East");
    assert_eq!(infos[0].tiers.len(), 1);
    assert_eq!(infos[0].tiers[0].id, 1);
    let team_infos = TeamInfo::get_all(&store).unwrap();
    assert_eq!(team_infos.len(), 4);
    assert_eq!(team_infos[2].name, "Cedar");
    assert_eq!(team_infos[2].tier.id, 2);
    assert_eq!(team_infos[2].league.name, "West");
    // A team pointing at a missing tier fails the aggregated view.
    let mut broken = small_world();
    Team::create(&mut broken, "Stray".to_string(), 50, 99, 1);
    assert!(matches!(TeamInfo::get_all(&broken), Err(Error::NotFound)));
}

#[test]
fn schedules_are_fetched_by_year() {
    let mut store = small_world();
    Schedule::create_round_robin(&mut store, 1, 1, 2023).unwrap();
    Schedule::create_round_robin(&mut store, 2, 2, 2024).unwrap();
    let all = Schedule::get_all(&store);
    assert_eq!(all.len(), 2);
    let this_year = Schedule::get_all_by_year(&store, &2023);
    assert_eq!(this_year.len(), 1);
    assert_eq!(this_year[0].tier_id, 1);
    assert!(Schedule::get_all_by_year(&store, &1999).is_empty());
}

#[test]
fn matchups_are_found_by_team() {
    let mut store = small_world();
    Schedule::create_round_robin(&mut store, 1, 1, 2023).unwrap();
    Schedule::create_round_robin(&mut store, 2, 2, 2023).unwrap();
    // Teams 1 and 2 play only each other: twice, with roles swapped.
    let ash_games = Matchup::get_with_teamid(&store, &1);
    assert_eq!(ash_games.len(), 2);
    assert_eq!(ash_games[0].home_team_id, 2);
    assert_eq!(ash_games[0].away_team_id, 1);
    assert_eq!(ash_games[1].home_team_id, 1);
    assert_eq!(ash_games[1].away_team_id, 2);
    assert!(Matchup::get_with_teamid(&store, &42).is_empty());
}

#[test]
fn score_updates_fail_cleanly_on_missing_records() {
    let mut store = small_world();
    let sched = Schedule::create_round_robin(&mut store, 1, 1, 2023).unwrap();
    let mut ghost_matchup = sched.matchups[0].clone();
    ghost_matchup.id = 0x7000_0000;
    assert!(matches!(
        ghost_matchup.set_scores(&mut store, 1, 1),
        Err(Error::NotFound)
    ));
    assert!(matches!(
        ghost_matchup.compute_scores(&mut store),
        Err(Error::NotFound)
    ));
    // A matchup whose team is gone cannot be simulated either.
    let mut dangling = sched.matchups[0].clone();
    dangling.home_team_id = 77;
    assert!(matches!(dangling.compute_scores(&mut store), Err(Error::NotFound)));
}

#[test]
fn set_week_only_touches_the_counter() {
    let mut store = small_world();
    let before = GameState::get(&store);
    GameState::set_week(&mut store, 9);
    let after = GameState::get(&store);
    assert_eq!(after.wk_no, 9);
    assert_eq!(after.year, before.year);
    assert_eq!(after.schema_ver, before.schema_ver);
    assert_eq!(store.leagues.len(), 2);
}
