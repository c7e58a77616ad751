pub mod moves;
pub mod regions;
pub mod example_bot;
pub mod bot_template;
pub mod jack_papel_bots;
pub mod chatgpt_bots;
pub mod stardustz_bots;
pub mod lunar;
