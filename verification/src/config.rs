//! The settings of a build.

use crate::path::{
    absolute_path, as_path, buf_bytes, joined_path, path_bytes, resolve_config_path, resolved_path,
};
use std::path::Path;
use std::path::PathBuf;
use vstd::prelude::*;
use vstd::string::*;

verus! {

/// The settings of a build.
#[derive(Debug)]
pub struct AppConfig {
    pub seed_global_config_path: PathBuf,
    pub output_global_config_path: PathBuf,
    pub report_path: PathBuf,
    /// The local address that the crawler listens at.
    pub local_adnl_addr: String,
    /// How often the peers are queried.
    pub crawl_rounds: usize,
    /// Whether peers that were discovered are queried too, and not the seed peers alone.
    pub recursive_crawl: bool,
    /// How many peers are queried at a time.
    pub workers: usize,
    pub peer_timeout_secs: u64,
    pub max_known_nodes: usize,
    /// How many nodes the output holds at most.
    pub max_output_nodes: usize,
    /// How many of them may be seed nodes.
    pub max_seed_nodes_in_output: usize,
    /// How many successful queries a node needs.
    pub min_successes: u32,
    /// Whether a seed node needs none.
    pub include_seed_nodes: bool,
    pub allow_private_ips: bool,
    /// Whether the output is written without line breaks.
    pub compact: bool,
}

/// `after` is `before` with its paths resolved against a directory.
pub open spec fn has_resolved_paths(before: AppConfig, base: Seq<u8>, after: AppConfig) -> bool {
    &&& buf_bytes(after.seed_global_config_path) == resolved_path(
        base,
        buf_bytes(before.seed_global_config_path),
    )
    &&& buf_bytes(after.output_global_config_path) == resolved_path(
        base,
        buf_bytes(before.output_global_config_path),
    )
    &&& buf_bytes(after.report_path) == resolved_path(base, buf_bytes(before.report_path))
    &&& after == (AppConfig {
        seed_global_config_path: after.seed_global_config_path,
        output_global_config_path: after.output_global_config_path,
        report_path: after.report_path,
        ..before
    })
}

/// Resolving the paths leaves an absolute path as it is and joins a relative one to the directory,
/// each on its own; and it leaves every other setting as it is.
pub proof fn law_resolving_touches_relative_paths_alone(
    before: AppConfig,
    base: Seq<u8>,
    after: AppConfig,
)
    requires
        has_resolved_paths(before, base, after),
    ensures
        ({
            let resolves = |old_path: PathBuf, new_path: PathBuf|
                buf_bytes(new_path) == if absolute_path(buf_bytes(old_path)) {
                    buf_bytes(old_path)
                } else {
                    joined_path(base, buf_bytes(old_path))
                };
            &&& resolves(before.seed_global_config_path, after.seed_global_config_path)
            &&& resolves(before.output_global_config_path, after.output_global_config_path)
            &&& resolves(before.report_path, after.report_path)
        }),
        after.local_adnl_addr == before.local_adnl_addr,
        after.crawl_rounds == before.crawl_rounds,
        after.recursive_crawl == before.recursive_crawl,
        after.workers == before.workers,
        after.peer_timeout_secs == before.peer_timeout_secs,
        after.max_known_nodes == before.max_known_nodes,
        after.max_output_nodes == before.max_output_nodes,
        after.max_seed_nodes_in_output == before.max_seed_nodes_in_output,
        after.min_successes == before.min_successes,
        after.include_seed_nodes == before.include_seed_nodes,
        after.allow_private_ips == before.allow_private_ips,
        after.compact == before.compact,
{
}

impl AppConfig {
    /// Resolves the paths of the settings against a directory.
    pub fn resolve_paths(&mut self, base_dir: &Path)
        ensures
            has_resolved_paths(*old(self), path_bytes(base_dir), *final(self)),
    {
        self.seed_global_config_path = resolve_config_path(
            base_dir,
            as_path(&self.seed_global_config_path),
        );
        self.output_global_config_path = resolve_config_path(
            base_dir,
            as_path(&self.output_global_config_path),
        );
        self.report_path = resolve_config_path(base_dir, as_path(&self.report_path));
    }
}

/// The local address where the settings name none.
pub fn default_local_adnl_addr() -> (r: String)
    ensures
        r@ == "0.0.0.0:4192"@,
{
    "0.0.0.0:4192".to_owned()
}

/// The number of rounds where the settings name none.
pub fn default_crawl_rounds() -> (r: usize)
    ensures
        r == 6,
{
    6
}

/// The number of workers where the settings name none.
pub fn default_workers() -> (r: usize)
    ensures
        r == 32,
{
    32
}

/// The seconds that a peer has to answer where the settings name none.
pub fn default_peer_timeout_secs() -> (r: u64)
    ensures
        r == 8,
{
    8
}

/// The number of nodes that the crawler keeps where the settings name none.
pub fn default_max_known_nodes() -> (r: usize)
    ensures
        r == 1000,
{
    1000
}

/// The number of nodes in the output where the settings name none.
pub fn default_max_output_nodes() -> (r: usize)
    ensures
        r == 200,
{
    200
}

/// The number of seed nodes in the output where the settings name none.
pub fn default_max_seed_nodes_in_output() -> (r: usize)
    ensures
        r == 3,
{
    3
}

/// The number of successes that a node needs where the settings name none.
pub fn default_min_successes() -> (r: u32)
    ensures
        r == 1,
{
    1
}

} // verus!
