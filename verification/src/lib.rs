//! Requirements-tracking model: artifact names, the names-list syntax that
//! links artifacts together, and the settings of the export command.

pub mod text;
pub mod types;
pub mod names;
pub mod pattern;
pub mod export;
pub mod logging;
pub mod laws;
pub mod compare;
pub mod order;

pub use names::_parse_names;
pub use types::{ArtName, ArtNames, ArtType, LoadError, LoadFromStr, LoadResult, Loc, Settings};
pub use export::{get_cmd, Config, ExportType};
