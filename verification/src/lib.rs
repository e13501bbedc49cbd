//! Repository-resolution core of a small version-control tool.
//!
//! The crate locates, validates and initializes a repository's on-disk
//! metadata root against an explicit model of the filesystem, and keeps the
//! repository's layered configuration as a verified section/key/value store.

pub mod config;
pub mod fsmodel;
pub mod paths;
pub mod repo;

pub use config::Config;
pub use config::ConfigEntry;
pub use config::ConfigSection;
pub use config::default_config_content;
pub use config::parse_config;
pub use config::serialize_config;
pub use fsmodel::Fs;
pub use fsmodel::FsEntry;
pub use paths::RepoPath;
pub use repo::GitRepository;
pub use repo::VcsError;
pub use repo::create_repo_file;
pub use repo::repo_create;
pub use repo::repo_dir;
pub use repo::repo_file;
pub use repo::repo_find;
pub use repo::repo_path;
