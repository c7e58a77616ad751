pub mod apex_bot;
pub mod myr;
