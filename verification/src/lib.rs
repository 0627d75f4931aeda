pub mod card;
pub mod player;
pub mod shuffle;
pub mod table;
pub mod engine;
pub mod search;
pub mod settings;
pub mod view;
