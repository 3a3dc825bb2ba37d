//! Operating-system tools for agents: file-system queries, background jobs and
//! launch stacks, with their rules stated as contracts and proved.
pub mod bytes;
pub mod codec;
pub mod digests;
pub mod errors;
pub mod fs_query;
pub mod ids;
pub mod jobs;
pub mod launch;
pub mod maps;
pub mod page;
pub mod paths;
pub mod text;
