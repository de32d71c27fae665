//! A verified core for a small Git implementation: object framing,
//! tree and index formats, pack deltas, configuration text and the
//! decisions behind the porcelain commands.

pub mod bytes;
pub mod digest;
pub mod hexenc;
pub mod zlib;
pub mod text;
pub mod object;
pub mod order;
pub mod index;
pub mod tree;
pub mod pack;
pub mod write_tree;
pub mod config;
pub mod commit;
pub mod diff;
pub mod refs;
pub mod status;
pub mod store;
pub mod commands;
pub mod ignore;
pub mod linediff;
pub mod setup;
pub mod readback;
