//! An incremental computation engine: interned keys, a versioned memo graph,
//! transactions that advance the version, and cycle-safe evaluation. Beside the
//! engine stands what a build tool around it decides in plain logic: the settings of
//! its remote execution client, the names of its targets, and the debugging
//! commands of its materializer.

pub mod change;
pub mod chars;
pub mod cycles;
pub mod data;
pub mod dice;
pub mod dump;
pub mod error;
pub mod history;
pub mod invalidate;
pub mod key;
pub mod key_index;
pub mod laws;
pub mod materializer;
pub mod model;
pub mod node;
pub mod re_config;
pub mod soundness;
pub mod state;
pub mod target;
pub mod text;
pub mod transaction;
pub mod version;
