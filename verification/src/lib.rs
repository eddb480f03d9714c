//! Diff two `.env` files; secrets stay masked unless revealed.
//!
//! Text is parsed into an [`env_map::EnvMap`] by [`parser::parse_env`],
//! two maps are compared by [`differ::diff_env_maps`], and
//! [`formatter`] says what the bot report and the terminal table show.

pub mod diff_laws;
pub mod differ;
pub mod env_map;
pub mod formatter;
pub mod masker;
pub mod parse_laws;
pub mod parser;
pub mod text;
