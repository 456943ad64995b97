//! A flattened index of a directory hierarchy: nodes addressed by integer ids,
//! built one directory layer at a time, with an expansion-aware projection for
//! display and cascading rename / delete.
pub mod builder;
pub mod entry;
pub mod error;
pub mod flat_tree;
pub mod projection;
pub mod removal;
pub mod settings;
pub mod ui_directory;

pub use builder::TreeBuilder;
pub use entry::FileEntry;
pub use error::{EditorIoError, ErrorType};
pub use flat_tree::{FlatTree, TreeNode};
pub use settings::{EditorSettings, FileTreeSettings, SettingsSource, SettingsWrite};
pub use ui_directory::{UIDOperation, UiDirectory};
