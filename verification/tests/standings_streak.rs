//! Streak, standings-invariant and utility tests.

use oaken::conf::{LeagueConfig, LeagueConfigItem, TeamConfig, TeamConfigItem, TierConfigItem};
use oaken::handlers::game::GameHandlers;
use oaken::model::{LedgerEntry, Match, Team as BareTeam};
use oaken::models::league::League;
use oaken::models::schedule::Schedule;
use oaken::models::standings::Standing;
use oaken::models::team::Team;
use oaken::models::tier::Tier;
use oaken::paths::{get_leagues_config_path, get_team_config_path};
use oaken::shared::emit::EmitMsg;
use oaken::store::Store;
use oaken::util::{Capitalize, PresentError};
use oaken::Error;

/// One league, one tier, two teams; returns the store with a 2-week
/// double round-robin between teams 1 and 2.
fn two_team_store() -> Store {
    let mut store = Store::new(1, 2023, 1);
    let league = League::create(&mut store, "L".to_string(), "L".to_string());
    let tier = Tier::create(&mut store, "T".to_string(), 1, league.id);
    Team::create(&mut store, "Alpha".to_string(), 50, tier.id, league.id);
    Team::create(&mut store, "Beta".to_string(), 50, tier.id, league.id);
    store
}

#[test]
fn streak_counts_only_the_trailing_wins() {
    // History for team 1, oldest to newest: W, W, L, W -- the streak is 1,
    // because the loss just before the final win resets the run.
    let mut store = two_team_store();
    // Four schedules of one matchup each keep the weeks ordered.
    for wk in 1..=4 {
        let sched = Schedule::create_empty(&mut store, 2023, 1, 1);
        let m = oaken::models::matchup::Matchup::create(
            &mut store,
            1,
            2,
            wk,
            0,
            sched.id,
        )
        .unwrap();
        let (hs, aws) = match wk {
            1 => (2, 0), // W for team 1
            2 => (3, 1), // W
            3 => (0, 1), // L
            _ => (5, 4), // W
        };
        m.set_scores(&mut store, hs, aws).unwrap();
    }
    let team = Team::get(&store, &1).unwrap();
    assert_eq!(team.get_streak(&store, &2023), 1);
    // The opponent lost last, so its streak is 0.
    let other = Team::get(&store, &2).unwrap();
    assert_eq!(other.get_streak(&store, &2023), 0);
}

#[test]
fn streak_of_unbroken_run_counts_every_win() {
    let mut store = two_team_store();
    let sched = Schedule::create_empty(&mut store, 2023, 1, 1);
    for wk in 1..=3 {
        let m = oaken::models::matchup::Matchup::create(&mut store, 1, 2, wk, 0, sched.id)
            .unwrap();
        m.set_scores(&mut store, 1, 0).unwrap();
    }
    let team = Team::get(&store, &1).unwrap();
    assert_eq!(team.get_streak(&store, &2023), 3);
}

#[test]
fn draws_reset_the_streak_and_count_in_the_record() {
    let mut store = two_team_store();
    let sched = Schedule::create_empty(&mut store, 2023, 1, 1);
    let m1 = oaken::models::matchup::Matchup::create(&mut store, 1, 2, 1, 0, sched.id).unwrap();
    m1.set_scores(&mut store, 4, 0).unwrap(); // W
    let m2 = oaken::models::matchup::Matchup::create(&mut store, 1, 2, 2, 0, sched.id).unwrap();
    m2.set_scores(&mut store, 2, 2).unwrap(); // D
    let team = Team::get(&store, &1).unwrap();
    assert_eq!(team.get_streak(&store, &2023), 0);
    let standings = Standing::get(&store, &2023);
    let s1 = standings.iter().find(|s| s.team_id == 1).unwrap();
    assert_eq!((s1.wins, s1.losses, s1.draws), (1, 0, 1));
    // 1 win and 1 draw over 2 games: 750 thousandths.
    assert_eq!(s1.win_percent_milli(), 750);
}

#[test]
fn record_totals_match_completed_matchups() {
    // The standings invariant on concrete data: wins + losses + draws
    // equals the count of completed matchups, and total points scored
    // equals total points conceded across the whole table.
    let mut store = two_team_store();
    let sched = Schedule::create_empty(&mut store, 2023, 1, 1);
    let results = [(3, 1), (0, 0), (1, 4), (2, 2), (7, 0)];
    for (wk, (hs, aws)) in results.iter().enumerate() {
        let m = oaken::models::matchup::Matchup::create(
            &mut store,
            1,
            2,
            wk as i32 + 1,
            0,
            sched.id,
        )
        .unwrap();
        m.set_scores(&mut store, *hs, *aws).unwrap();
    }
    // One extra matchup stays unplayed and must not count.
    oaken::models::matchup::Matchup::create(&mut store, 1, 2, 6, 0, sched.id).unwrap();
    let standings = Standing::get(&store, &2023);
    let mut total_for = 0;
    let mut total_against = 0;
    for s in &standings {
        assert_eq!(s.wins + s.losses + s.draws, 5);
        total_for += s.points_for;
        total_against += s.points_against;
    }
    assert_eq!(total_for, total_against);
}

#[test]
fn standings_win_percent_is_zero_without_matches() {
    let store = two_team_store();
    let standings = Standing::get(&store, &2023);
    assert_eq!(standings.len(), 2);
    for s in &standings {
        assert_eq!((s.wins, s.losses, s.draws), (0, 0, 0));
        // The documented policy for an empty record.
        assert_eq!(s.win_percent_milli(), 0);
        assert_eq!(s.streak, 0);
    }
}

#[test]
fn standings_order_by_wins_minus_losses_descending() {
    let mut store = Store::new(1, 2023, 1);
    let league = League::create(&mut store, "L".to_string(), "L".to_string());
    let tier = Tier::create(&mut store, "T".to_string(), 1, league.id);
    for name in ["A", "B", "C", "D"] {
        Team::create(&mut store, name.to_string(), 50, tier.id, league.id);
    }
    let sched = Schedule::create_empty(&mut store, 2023, tier.id, league.id);
    // Team 3 wins twice, team 1 wins once, team 2 loses once, team 4
    // loses twice.
    let m1 = oaken::models::matchup::Matchup::create(&mut store, 3, 4, 1, 0, sched.id).unwrap();
    m1.set_scores(&mut store, 2, 0).unwrap();
    let m2 = oaken::models::matchup::Matchup::create(&mut store, 3, 4, 2, 0, sched.id).unwrap();
    m2.set_scores(&mut store, 2, 0).unwrap();
    let m3 = oaken::models::matchup::Matchup::create(&mut store, 1, 2, 1, 0, sched.id).unwrap();
    m3.set_scores(&mut store, 1, 0).unwrap();
    let standings = Standing::get(&store, &2023);
    let keys: Vec<i32> = standings.iter().map(|s| s.wins - s.losses).collect();
    assert_eq!(keys, vec![2, 1, -1, -2]);
    assert_eq!(standings[0].team_id, 3);
    assert_eq!(standings[1].team_id, 1);
    assert_eq!(standings[2].team_id, 2);
    assert_eq!(standings[3].team_id, 4);
}

#[test]
fn restart_game_bootstraps_the_default_world() {
    let mut store = Store::new(1, 2023, 5);
    let cfg = LeagueConfig::default();
    let roster = GameHandlers::restart_game(&mut store, &cfg, None).unwrap();
    assert_eq!(store.leagues.len(), 8);
    assert_eq!(store.tiers.len(), 32);
    assert_eq!(store.teams.len(), 512);
    assert_eq!(roster.teams.len(), 512);
    assert_eq!(store.schedules.len(), 32);
    assert_eq!(store.game.wk_no, 1);
    assert_eq!(store.game.year, 2023);
    for t in &store.teams {
        assert!(1 <= t.skill && t.skill <= 100);
    }
    for (i, tier) in store.tiers.iter().enumerate() {
        assert_eq!(tier.rank, i as i32 % 4 + 1);
    }
    for sched in &store.schedules {
        // 16 teams per tier: 2 * 15 weeks of 8 fixtures.
        assert_eq!(sched.matchups.len(), 240);
        assert_eq!(sched.year, 2023);
    }
    // The synthesized roster names every team after its league, tier and
    // slot, such as "NE1 A".
    assert_eq!(roster.teams[0].name, "NE1 A");
    assert_eq!(roster.teams[0].league, "Northeast");
    assert_eq!(roster.teams[0].tier, "Tier 1");
}

#[test]
fn restart_game_honours_a_given_roster() {
    let mut store = Store::new(1, 2024, 3);
    let cfg = LeagueConfig {
        leagues: vec![LeagueConfigItem { abbr: "SO".to_string(), name: "Solo".to_string() }],
        tiers: vec![TierConfigItem { name: "Only".to_string(), league: "Solo".to_string() }],
    };
    let mut teams = Vec::new();
    for (name, skill) in [("East", 30), ("West", 70)] {
        teams.push(TeamConfigItem {
            name: name.to_string(),
            skill,
            tier: "Only".to_string(),
            league: "Solo".to_string(),
        });
    }
    let roster = TeamConfig { teams };
    let used = GameHandlers::restart_game(&mut store, &cfg, Some(&roster)).unwrap();
    assert_eq!(used.teams.len(), 2);
    assert_eq!(store.leagues.len(), 1);
    assert_eq!(store.tiers.len(), 1);
    assert_eq!(store.teams.len(), 2);
    assert_eq!(store.teams[0].name, "East");
    assert_eq!(store.teams[0].skill, 30);
    assert_eq!(store.teams[0].tier_id, 1);
    assert_eq!(store.schedules.len(), 1);
    // Two teams meet twice: week 1 and its mirrored week 2.
    assert_eq!(store.schedules[0].matchups.len(), 2);
    assert_eq!(store.schedules[0].year, 2024);
    assert_eq!(store.game.wk_no, 1);
    assert_eq!(store.game.year, 2024);
}

#[test]
fn restart_game_rejects_an_odd_supplied_division() {
    let mut store = Store::new(1, 2024, 1);
    let cfg = LeagueConfig {
        leagues: vec![LeagueConfigItem { abbr: "SO".to_string(), name: "Solo".to_string() }],
        tiers: vec![TierConfigItem { name: "Only".to_string(), league: "Solo".to_string() }],
    };
    let mut teams = Vec::new();
    for name in ["One", "Two", "Three"] {
        teams.push(TeamConfigItem {
            name: name.to_string(),
            skill: 50,
            tier: "Only".to_string(),
            league: "Solo".to_string(),
        });
    }
    let roster = TeamConfig { teams };
    assert!(matches!(
        GameHandlers::restart_game(&mut store, &cfg, Some(&roster)),
        Err(Error::InvalidRosterSize)
    ));
    // The week counter survives the failed bootstrap.
    assert_eq!(store.game.wk_no, 1);
}

#[test]
fn restart_game_rejects_unknown_league_names() {
    let mut store = Store::new(1, 2023, 1);
    let mut cfg = LeagueConfig::default();
    cfg.tiers[0].league = "No Such League".to_string();
    assert!(matches!(
        GameHandlers::restart_game(&mut store, &cfg, None),
        Err(Error::NotFound)
    ));
}

#[test]
fn ledger_entry_simulation_respects_the_skill_window() {
    let teams = vec![
        BareTeam { id: 1, name: "H".to_string(), skill: 1 },
        BareTeam { id: 2, name: "A".to_string(), skill: 100 },
    ];
    let fixture = Match { id: 77, wk_no: 1, season_id: 0, home_team_id: 1, away_team_id: 2 };
    for _ in 0..50 {
        let entry = LedgerEntry::simulate(&teams, &fixture);
        assert_eq!(entry.match_id, 77);
        assert!(0 <= entry.home_score && entry.home_score <= 5);
        assert!(98 <= entry.away_score && entry.away_score <= 104);
    }
}

#[test]
fn default_league_config_shape() {
    let cfg = LeagueConfig::default();
    assert_eq!(cfg.leagues.len(), 8);
    assert_eq!(cfg.tiers.len(), 32);
    assert_eq!(cfg.leagues[0].abbr, "NE");
    assert_eq!(cfg.leagues[0].name, "Northeast");
    assert_eq!(cfg.leagues[7].abbr, "CT");
    assert_eq!(cfg.leagues[7].name, "Central");
    for (i, tier) in cfg.tiers.iter().enumerate() {
        assert_eq!(tier.league, cfg.leagues[i / 4].name);
        assert_eq!(tier.name, format!("Tier {}", i % 4 + 1));
    }
}

#[test]
fn config_paths_join_the_directory() {
    assert_eq!(get_team_config_path("/srv/app"), "/srv/app/teams.toml");
    assert_eq!(get_leagues_config_path("/srv/app"), "/srv/app/leagues.toml");
}

#[test]
fn capitalize_raises_the_first_letter() {
    assert_eq!("hello".capitalize(), "Hello");
    assert_eq!("Hello".capitalize(), "Hello");
    assert_eq!("".capitalize(), "");
    assert_eq!("x".capitalize(), "X");
    assert_eq!("zulu time".capitalize(), "Zulu time");
    assert_eq!("9 lives".capitalize(), "9 lives");
    assert_eq!("tier one".to_string().capitalize(), "Tier one");
}

#[test]
fn present_err_collapses_the_error() {
    let ok: Result<i32, Error> = Ok(5);
    let err: Result<i32, Error> = Err(Error::NotFound);
    assert_eq!(ok.present_err(), Ok(5));
    assert_eq!(err.present_err(), Err(()));
}

#[test]
fn emit_messages_serialize_to_quoted_snake_case() {
    assert_eq!(EmitMsg::GameWillRestart.event_name(), "\"game_will_restart\"");
    assert_eq!(EmitMsg::GameDidRestart.event_name(), "\"game_did_restart\"");
    assert_eq!(EmitMsg::WeekDidAdvance.event_name(), "\"week_did_advance\"");
}
