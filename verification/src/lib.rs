//! Visual QA for agents: DOM structure extraction, pixel diffs, perceptual
//! hashes and the decisions around them, each with its contract.

pub mod phash_cascade;
pub mod text;
pub mod dom_index;
pub mod describe;
pub mod diff;
pub mod dom_diff_coalesce;
pub mod config;
pub mod verify;
pub mod vlm;
pub mod mcp_server;
pub mod serve;
