//! SFZ instruments for an asset server.
//!
//! An SFZ file lists regions: samples, each with settings that say for which notes and
//! velocities it plays, and how. This library holds what happens between the parser and
//! the player. It takes over what the parser found ([`parsed`]), works out which samples
//! the asset server has to be asked for ([`loader`]), and answers the questions of a
//! player about the loaded instrument ([`asset`]).

pub mod asset;
pub mod encode;
pub mod instrument;
pub mod loader;
pub mod opcode;
pub mod parsed;
pub mod path;
pub mod text;

pub use asset::SfzInstrumentAsset;
pub use loader::{SfzAssetLoader, SfzLoaderError};
