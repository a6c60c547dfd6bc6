use everscale_global_config_builder::clock::{unix_now, unix_seconds};
use everscale_global_config_builder::config::{
    default_crawl_rounds, default_local_adnl_addr, default_max_known_nodes,
    default_max_output_nodes, default_max_seed_nodes_in_output, default_min_successes,
    default_peer_timeout_secs, default_workers, AppConfig,
};
use everscale_global_config_builder::path::{
    config_base_dir, parent_or_current, path_or_joined, resolve_config_path,
};
use std::path::{Path, PathBuf};
use std::time::{Duration, SystemTime};

fn settings() -> AppConfig {
    AppConfig {
        seed_global_config_path: PathBuf::from("seed.json"),
        output_global_config_path: PathBuf::from("out/config.json"),
        report_path: PathBuf::from("/var/report.json"),
        local_adnl_addr: default_local_adnl_addr(),
        crawl_rounds: default_crawl_rounds(),
        recursive_crawl: false,
        workers: default_workers(),
        peer_timeout_secs: default_peer_timeout_secs(),
        max_known_nodes: default_max_known_nodes(),
        max_output_nodes: default_max_output_nodes(),
        max_seed_nodes_in_output: default_max_seed_nodes_in_output(),
        min_successes: default_min_successes(),
        include_seed_nodes: false,
        allow_private_ips: false,
        compact: false,
    }
}

#[test]
fn defaults_are_conservative() {
    let settings = settings();
    assert_eq!(settings.local_adnl_addr, "0.0.0.0:4192");
    assert_eq!(settings.crawl_rounds, 6);
    assert_eq!(settings.workers, 32);
    assert_eq!(settings.peer_timeout_secs, 8);
    assert_eq!(settings.max_known_nodes, 1000);
    assert_eq!(settings.max_output_nodes, 200);
    assert_eq!(settings.max_seed_nodes_in_output, 3);
    assert_eq!(settings.min_successes, 1);
}

#[test]
fn base_dir_is_the_parent_or_the_current_directory() {
    assert_eq!(config_base_dir(Path::new("conf/build.json")), PathBuf::from("conf"));
    assert_eq!(config_base_dir(Path::new("/etc/build.json")), PathBuf::from("/etc"));
    assert_eq!(config_base_dir(Path::new("build.json")), PathBuf::from("."));
    assert_eq!(config_base_dir(Path::new("")), PathBuf::from("."));
    assert_eq!(config_base_dir(Path::new("/")), PathBuf::from("."));
    assert_eq!(parent_or_current(None), PathBuf::from("."));
    assert_eq!(parent_or_current(Some(Path::new(""))), PathBuf::from("."));
    assert_eq!(parent_or_current(Some(Path::new("a/b"))), PathBuf::from("a/b"));
}

#[test]
fn absolute_paths_are_kept_and_relative_ones_joined() {
    let base = Path::new("/srv/builder");
    assert_eq!(resolve_config_path(base, Path::new("/seed.json")), PathBuf::from("/seed.json"));
    assert_eq!(
        resolve_config_path(base, Path::new("out/seed.json")),
        PathBuf::from("/srv/builder/out/seed.json")
    );
    assert_eq!(resolve_config_path(Path::new("."), Path::new("a")), PathBuf::from("./a"));
    assert_eq!(path_or_joined(true, Path::new("a"), PathBuf::from("b")), PathBuf::from("a"));
    assert_eq!(path_or_joined(false, Path::new("a"), PathBuf::from("b")), PathBuf::from("b"));
}

#[test]
fn resolving_touches_the_paths_alone() {
    let mut settings = settings();
    settings.resolve_paths(Path::new("/srv"));
    assert_eq!(settings.seed_global_config_path, PathBuf::from("/srv/seed.json"));
    assert_eq!(settings.output_global_config_path, PathBuf::from("/srv/out/config.json"));
    assert_eq!(settings.report_path, PathBuf::from("/var/report.json"));
    assert_eq!(settings.local_adnl_addr, "0.0.0.0:4192");
    assert_eq!(settings.crawl_rounds, 6);
}

#[test]
fn resolved_paths_are_stable() {
    let once = resolve_config_path(Path::new("/srv"), Path::new("seed.json"));
    assert_eq!(resolve_config_path(Path::new("/other"), &once), once);
}

#[test]
fn times_are_counted_from_1970() {
    let epoch = SystemTime::UNIX_EPOCH;
    assert_eq!(unix_seconds(&epoch), 0);
    assert_eq!(unix_seconds(&(epoch + Duration::from_millis(5_999))), 5);
    assert_eq!(unix_seconds(&(epoch - Duration::from_secs(7))), 0);
    let before = epoch.elapsed().unwrap().as_secs();
    let now = unix_now();
    let after = epoch.elapsed().unwrap().as_secs();
    assert!(before <= now && now <= after);
}
