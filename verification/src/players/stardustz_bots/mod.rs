pub mod chase_bot;
pub mod cnnml;
pub mod opponents;
