pub mod game;
pub mod league;
pub mod matchup;
pub mod schedule;
pub mod standings;
pub mod team;
pub mod tier;
