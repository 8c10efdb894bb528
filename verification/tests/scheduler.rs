//! Tests for the pure round-robin scheduler.

use oaken::models::schedule::{ScheduledWeek, Scheduler};
use oaken::Error;

fn pairs_of(weeks: &[ScheduledWeek]) -> Vec<(i32, i32)> {
    let mut out = Vec::new();
    for wk in weeks {
        for m in &wk.matches {
            out.push((m.home_id, m.away_id));
        }
    }
    out
}

#[test]
fn round_robin_four_teams_shape() {
    let weeks = Scheduler::round_robin(vec![1, 2, 3, 4]).unwrap();
    assert_eq!(weeks.len(), 6);
    for (i, wk) in weeks.iter().enumerate() {
        assert_eq!(wk.wk_no, i as i32 + 1);
        assert_eq!(wk.matches.len(), 2);
    }
}

#[test]
fn round_robin_every_pair_twice_with_roles_swapped() {
    for n in [2usize, 4, 6, 8, 10] {
        let teams: Vec<i32> = (1..=n as i32).collect();
        let weeks = Scheduler::round_robin(teams.clone()).unwrap();
        assert_eq!(weeks.len(), 2 * (n - 1));
        for wk in &weeks {
            assert_eq!(wk.matches.len(), n / 2);
        }
        let pairs = pairs_of(&weeks);
        for a in &teams {
            for b in &teams {
                if a < b {
                    let ab = pairs.iter().filter(|p| **p == (*a, *b)).count();
                    let ba = pairs.iter().filter(|p| **p == (*b, *a)).count();
                    assert_eq!(ab, 1, "pair ({a},{b}) must host exactly once");
                    assert_eq!(ba, 1, "pair ({b},{a}) must host exactly once");
                }
            }
        }
    }
}

#[test]
fn round_robin_second_leg_mirrors_first() {
    let weeks = Scheduler::round_robin(vec![10, 20, 30, 40]).unwrap();
    let m = 3;
    for w in 0..m {
        let first = &weeks[w];
        let second = &weeks[w + m];
        assert_eq!(second.wk_no, first.wk_no + m as i32);
        for i in 0..first.matches.len() {
            assert_eq!(second.matches[i].home_id, first.matches[i].away_id);
            assert_eq!(second.matches[i].away_id, first.matches[i].home_id);
        }
    }
}

#[test]
fn round_robin_two_teams() {
    let weeks = Scheduler::round_robin(vec![7, 9]).unwrap();
    assert_eq!(weeks.len(), 2);
    assert_eq!(weeks[0].matches.len(), 1);
    assert_eq!(weeks[0].matches[0].home_id, 9);
    assert_eq!(weeks[0].matches[0].away_id, 7);
    assert_eq!(weeks[1].matches[0].home_id, 7);
    assert_eq!(weeks[1].matches[0].away_id, 9);
}

#[test]
fn round_robin_rejects_odd_input() {
    assert!(matches!(Scheduler::round_robin(vec![1]), Err(Error::InvalidInput)));
    assert!(matches!(Scheduler::round_robin(vec![1, 2, 3]), Err(Error::InvalidInput)));
    assert!(matches!(
        Scheduler::round_robin(vec![1, 2, 3, 4, 5, 6, 7]),
        Err(Error::InvalidInput)
    ));
}

#[test]
fn round_robin_rejects_empty_input() {
    assert!(matches!(Scheduler::round_robin(vec![]), Err(Error::InvalidInput)));
}

#[test]
fn schedule_weeks_builds_home_leg_only() {
    let teams = vec![1, 2, 3, 4, 5, 6];
    let weeks = Scheduler::schedule_weeks(&teams, Vec::new());
    assert_eq!(weeks.len(), 5);
    for (i, wk) in weeks.iter().enumerate() {
        assert_eq!(wk.wk_no, i as i32 + 1);
        assert_eq!(wk.matches.len(), 3);
    }
    // First rotation pairs the list ends inward.
    assert_eq!(weeks[0].matches[0].home_id, 6);
    assert_eq!(weeks[0].matches[0].away_id, 1);
    assert_eq!(weeks[0].matches[1].home_id, 5);
    assert_eq!(weeks[0].matches[1].away_id, 2);
    assert_eq!(weeks[0].matches[2].home_id, 4);
    assert_eq!(weeks[0].matches[2].away_id, 3);
}

#[test]
fn schedule_weeks_odd_input_yields_nothing() {
    let teams = vec![1, 2, 3];
    let weeks = Scheduler::schedule_weeks(&teams, Vec::new());
    assert!(weeks.is_empty());
}
