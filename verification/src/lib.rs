//! Reconciles a local file tree with the torrents a BitTorrent client seeds.
//!
//! The library holds the decisions: how a torrent's pieces lie across its
//! files, which local file stands for which torrent file, whether the chosen
//! files can be seeded in place or need a mirror of symlinks, and how the
//! client's base paths follow a move. Every effect (reading, hashing input,
//! linking, talking to the client) is left to the caller, who is handed a plan.

pub mod announce;
pub mod candidates;
pub mod config;
pub mod episodes;
pub mod find;
pub mod fs;
pub mod hashing;
pub mod import;
pub mod layout;
pub mod order;
pub mod organize;
pub mod path;
pub mod pathmap;
pub mod plan;
pub mod relocate;
pub mod sampling;
pub mod sycli;
pub mod text;
pub mod torrent;
pub mod update_paths;
