//! What holds of the library as a whole.
pub mod crew;
pub mod editing;
pub mod ending;
pub mod grammar;
pub mod listing;
pub mod lone;
pub mod passes;
pub mod pushing;
pub mod queue;
pub mod rendering;
pub mod trials;
pub mod twins;
pub mod views;
pub mod workers;
