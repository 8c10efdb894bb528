pub mod game;
