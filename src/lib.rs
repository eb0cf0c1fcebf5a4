//! Selection of a directory's files under a layered glob policy, and the
//! rendering of the selected paths as an indented tree and as a dump of file
//! contents suitable for a language-model prompt.
pub mod glob;
pub mod order;
pub mod output;
pub mod path;
pub mod policy;
pub mod selection;
pub mod target;
pub mod tree;

pub use glob::{PatternError, PatternSet};
pub use output::{assemble_output, estimate_tokens, generate_file_contents};
pub use path::split_segments;
pub use policy::{with_metadata_excluded, FileFilter};
pub use selection::select_files;
pub use target::{resolve_target_directory, TargetError};
pub use tree::generate_directory_tree;
