pub mod archive;
pub mod autoremove;
pub mod control;
pub mod digest;
pub mod extract;
pub mod graph;
pub mod install;
pub mod job;
pub mod laws;
pub mod model;
pub mod populate;
pub mod purge;
pub mod store;
pub mod text;
pub mod update;
pub mod version;
