//! A segmented, resumable downloader: the decisions of the download engine,
//! each stated and proved, with the network, files and threads left to the
//! program that drives it.

pub mod args;
pub mod partition;
pub mod fetch;
pub mod progress;
pub mod layout;
pub mod download;
