//! End-to-end season tests: bootstrap, schedule creation, week
//! advancement and standings.

use oaken::handlers::game::GameHandlers;
use oaken::models::game::GameState;
use oaken::models::league::League;
use oaken::models::schedule::Schedule;
use oaken::models::standings::Standing;
use oaken::models::team::Team;
use oaken::models::tier::Tier;
use oaken::store::Store;
use oaken::Error;

/// One league, one tier, four teams with skills 10, 20, 30 and 40.
fn four_team_store() -> Store {
    let mut store = Store::new(1, 2023, 1);
    let league = League::create(&mut store, "Northeast".to_string(), "NE".to_string());
    let tier = Tier::create(&mut store, "Tier 1".to_string(), 1, league.id);
    Team::create(&mut store, "A".to_string(), 10, tier.id, league.id);
    Team::create(&mut store, "B".to_string(), 20, tier.id, league.id);
    Team::create(&mut store, "C".to_string(), 30, tier.id, league.id);
    Team::create(&mut store, "D".to_string(), 40, tier.id, league.id);
    store
}

#[test]
fn create_round_robin_yields_six_weeks_with_mirrored_legs() {
    let mut store = four_team_store();
    let sched = Schedule::create_round_robin(&mut store, 1, 1, 2023).unwrap();
    assert_eq!(sched.matchups.len(), 12);
    let max_week = sched.matchups.iter().map(|m| m.wk_no).max().unwrap();
    assert_eq!(max_week, 6);
    for wk in 1..=6 {
        let count = sched.matchups.iter().filter(|m| m.wk_no == wk).count();
        assert_eq!(count, 2);
    }
    // Week 4 repeats week 1 with home and away swapped.
    let week1: Vec<_> = sched.matchups.iter().filter(|m| m.wk_no == 1).collect();
    let week4: Vec<_> = sched.matchups.iter().filter(|m| m.wk_no == 4).collect();
    for i in 0..2 {
        assert_eq!(week4[i].home_team_id, week1[i].away_team_id);
        assert_eq!(week4[i].away_team_id, week1[i].home_team_id);
    }
}

#[test]
fn fixed_scores_give_exact_standings() {
    let mut store = four_team_store();
    let sched = Schedule::create_round_robin(&mut store, 1, 1, 2023).unwrap();
    // Week 1 pairs (D, A) and (C, B). Let the away sides A and C's
    // opponents lose: A wins 3:1, B loses 1:5.
    let week1: Vec<_> = sched.matchups.iter().filter(|m| m.wk_no == 1).cloned().collect();
    assert_eq!(week1[0].home_team_id, 4); // D
    assert_eq!(week1[0].away_team_id, 1); // A
    assert_eq!(week1[1].home_team_id, 3); // C
    assert_eq!(week1[1].away_team_id, 2); // B
    week1[0].set_scores(&mut store, 1, 3).unwrap(); // D 1 : 3 A
    week1[1].set_scores(&mut store, 5, 1).unwrap(); // C 5 : 1 B
    let standings = Standing::get(&store, &2023);
    assert_eq!(standings.len(), 4);
    let a = standings.iter().find(|s| s.team_id == 1).unwrap();
    let b = standings.iter().find(|s| s.team_id == 2).unwrap();
    let c = standings.iter().find(|s| s.team_id == 3).unwrap();
    let d = standings.iter().find(|s| s.team_id == 4).unwrap();
    assert_eq!((a.wins, a.losses, a.draws), (1, 0, 0));
    assert_eq!((b.wins, b.losses, b.draws), (0, 1, 0));
    assert_eq!((c.wins, c.losses, c.draws), (1, 0, 0));
    assert_eq!((d.wins, d.losses, d.draws), (0, 1, 0));
    assert_eq!(a.points_for, 3);
    assert_eq!(a.points_against, 1);
    assert_eq!(a.win_percent_milli(), 1000);
    assert_eq!(b.win_percent_milli(), 0);
    // Winners are ordered ahead of losers.
    assert!(standings[0].wins - standings[0].losses >= standings[3].wins - standings[3].losses);
}

#[test]
fn advance_simulates_only_the_current_week() {
    let mut store = four_team_store();
    Schedule::create_round_robin(&mut store, 1, 1, 2023).unwrap();
    GameHandlers::next_week(&mut store).unwrap();
    assert_eq!(store.game.wk_no, 2);
    for m in &store.schedules[0].matchups {
        if m.wk_no == 1 {
            assert!(m.home_team_score.is_some());
            assert!(m.away_team_score.is_some());
        } else {
            assert!(m.home_team_score.is_none());
            assert!(m.away_team_score.is_none());
        }
    }
}

#[test]
fn advance_never_overwrites_previous_scores() {
    let mut store = four_team_store();
    let sched = Schedule::create_round_robin(&mut store, 1, 1, 2023).unwrap();
    // Score week 1 by hand, then advance: the given scores must survive.
    let week1: Vec<_> = sched.matchups.iter().filter(|m| m.wk_no == 1).cloned().collect();
    week1[0].set_scores(&mut store, 1, 3).unwrap();
    week1[1].set_scores(&mut store, 5, 1).unwrap();
    GameHandlers::next_week(&mut store).unwrap();
    GameHandlers::next_week(&mut store).unwrap();
    assert_eq!(store.game.wk_no, 3);
    let m0 = store.schedules[0].matchups.iter().find(|m| m.id == week1[0].id).unwrap();
    let m1 = store.schedules[0].matchups.iter().find(|m| m.id == week1[1].id).unwrap();
    assert_eq!(m0.home_team_score, Some(1));
    assert_eq!(m0.away_team_score, Some(3));
    assert_eq!(m1.home_team_score, Some(5));
    assert_eq!(m1.away_team_score, Some(1));
}

#[test]
fn advance_past_final_week_is_a_no_op() {
    let mut store = four_team_store();
    Schedule::create_round_robin(&mut store, 1, 1, 2023).unwrap();
    for _ in 0..6 {
        GameHandlers::next_week(&mut store).unwrap();
    }
    assert_eq!(store.game.wk_no, 7);
    for m in &store.schedules[0].matchups {
        assert!(m.home_team_score.is_some());
    }
    let before = GameState::get(&store);
    let scores_before: Vec<_> = store.schedules[0]
        .matchups
        .iter()
        .map(|m| (m.home_team_score, m.away_team_score))
        .collect();
    GameHandlers::next_week(&mut store).unwrap();
    GameHandlers::next_week(&mut store).unwrap();
    let after = GameState::get(&store);
    assert_eq!(before, after);
    assert_eq!(after.wk_no, 7);
    let scores_after: Vec<_> = store.schedules[0]
        .matchups
        .iter()
        .map(|m| (m.home_team_score, m.away_team_score))
        .collect();
    assert_eq!(scores_before, scores_after);
}

#[test]
fn simulated_scores_stay_within_the_skill_window() {
    let mut store = four_team_store();
    Schedule::create_round_robin(&mut store, 1, 1, 2023).unwrap();
    GameHandlers::next_week(&mut store).unwrap();
    let skills = [0i32, 10, 20, 30, 40];
    for m in &store.schedules[0].matchups {
        if m.wk_no == 1 {
            let hs = m.home_team_score.unwrap();
            let aws = m.away_team_score.unwrap();
            let hskill = skills[m.home_team_id as usize];
            let askill = skills[m.away_team_id as usize];
            assert!((hskill - 2).max(0) <= hs && hs <= hskill + 4);
            assert!((askill - 2).max(0) <= aws && aws <= askill + 4);
        }
    }
}

#[test]
fn roster_size_errors_by_kind() {
    let mut store = Store::new(1, 2023, 1);
    let league = League::create(&mut store, "L".to_string(), "L".to_string());
    let empty_tier = Tier::create(&mut store, "Empty".to_string(), 1, league.id);
    let odd_tier = Tier::create(&mut store, "Odd".to_string(), 2, league.id);
    for i in 0..3 {
        Team::create(&mut store, format!("O{i}"), 50, odd_tier.id, league.id);
    }
    assert!(matches!(
        Schedule::create_round_robin(&mut store, league.id, empty_tier.id, 2023),
        Err(Error::PreconditionViolated)
    ));
    assert!(matches!(
        Schedule::create_round_robin(&mut store, league.id, odd_tier.id, 2023),
        Err(Error::InvalidRosterSize)
    ));
}

#[test]
fn oversized_roster_is_refused() {
    let mut store = Store::new(1, 2023, 1);
    let league = League::create(&mut store, "L".to_string(), "L".to_string());
    let tier = Tier::create(&mut store, "Huge".to_string(), 1, league.id);
    for i in 0..258 {
        Team::create(&mut store, format!("T{i}"), 50, tier.id, league.id);
    }
    assert!(matches!(
        Schedule::create_round_robin(&mut store, league.id, tier.id, 2023),
        Err(Error::InvalidInput)
    ));
}

#[test]
fn lookups_fail_with_not_found() {
    let store = Store::new(1, 2023, 1);
    assert!(matches!(League::get(&store, &1), Err(Error::NotFound)));
    assert!(matches!(Tier::get(&store, &5), Err(Error::NotFound)));
    assert!(matches!(Team::get(&store, &0), Err(Error::NotFound)));
    assert!(matches!(
        League::get_by_name(&store, "Nowhere".to_string()),
        Err(Error::NotFound)
    ));
}
