pub mod card;
pub mod game;
pub mod zfinder;
