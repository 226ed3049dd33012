//! A small interactive shell-training game: configuration model, input
//! handling, directory navigation rules and the ordering of games.

pub mod text;
pub mod path;
pub mod config;
pub mod game;
pub mod player;
