use everscale_global_config_builder::candidate::{
    record_candidate, record_outcome, CandidateTable, NodeRecord,
};
use everscale_global_config_builder::config::AppConfig;
use everscale_global_config_builder::crawl::{Crawl, CrawlAction};
use everscale_global_config_builder::decision::{
    candidate_report, inclusion_decision, InclusionDecision,
};
use everscale_global_config_builder::error::BuildError;
use everscale_global_config_builder::node::{Address, AddressList, DhtNode, PublicKey};
use everscale_global_config_builder::report::{
    build_report, candidate_to_json, finish_build, BuildReport,
};
use everscale_global_config_builder::select::{
    admit_within_limit, arrange, keep_at_most, limit_seeds, places_of, rank_fit, select_output,
    NodeOrder,
};
use everscale_global_config_builder::seed::{
    ConfigAddress, ConfigAddressList, ConfigDhtNode, ConfigDhtNodeId,
};
use serde_json::Value;
use std::path::PathBuf;

const NOW: u64 = 1_700_000_000;
const PUBLIC_IP: i32 = 0x33C3_F879;

fn settings() -> AppConfig {
    AppConfig {
        seed_global_config_path: PathBuf::from("in/seed.json"),
        output_global_config_path: PathBuf::from("out/config.json"),
        report_path: PathBuf::from("out/report.json"),
        local_adnl_addr: String::new(),
        crawl_rounds: 6,
        recursive_crawl: false,
        workers: 32,
        peer_timeout_secs: 8,
        max_known_nodes: 1000,
        max_output_nodes: 200,
        max_seed_nodes_in_output: 3,
        min_successes: 1,
        include_seed_nodes: false,
        allow_private_ips: false,
        compact: false,
    }
}

fn record(key: &str, addrs: Vec<Address>, expire_at: i32) -> NodeRecord {
    NodeRecord {
        node: DhtNode {
            id: PublicKey::Ed25519([1; 32]),
            addr_list: AddressList {
                addrs,
                version: 3,
                reinit_date: 4,
                priority: 5,
                expire_at,
            },
            version: 6,
            signature: vec![9],
        },
        key_id: Ok(format!("id {key}")),
        public_key: key.to_owned(),
        signature: format!("sig {key}"),
    }
}

fn add(table: &mut CandidateTable, key: &str, seed: bool, seen: u32, successes: u32) {
    for _ in 0..seen {
        let addrs = vec![Address::Udp { ip: PUBLIC_IP, port: 30303 }];
        record_candidate(table, record(key, addrs, 0), seed, NOW).unwrap();
    }
    for _ in 0..successes {
        record_outcome(table, &format!("id {key}"), Ok(true), "");
    }
}

fn one(addrs: Vec<Address>, expire_at: i32, seed: bool, successes: u32) -> CandidateTable {
    let mut table = CandidateTable::new();
    record_candidate(&mut table, record("k", addrs, expire_at), seed, NOW).unwrap();
    for _ in 0..successes {
        record_outcome(&mut table, "id k", Ok(true), "");
    }
    table
}

fn reason(table: &CandidateTable, settings: &AppConfig) -> String {
    let decision = inclusion_decision(table.get(0), settings, NOW);
    assert_eq!(decision.included, decision.reason == "included");
    decision.reason
}

fn keys(table: &CandidateTable, places: &[usize]) -> Vec<String> {
    places.iter().map(|place| table.get(*place).public_key.clone()).collect()
}

fn reasons(report: &BuildReport) -> Vec<(String, bool, String)> {
    report
        .nodes
        .iter()
        .map(|node| (node.public_key.clone(), node.included, node.reason.clone()))
        .collect()
}

fn udp(ip: i32) -> Vec<Address> {
    vec![Address::Udp { ip, port: 7 }]
}

fn json(text: &str) -> Value {
    serde_json::from_str(text).unwrap()
}

#[test]
fn node_without_udp_address_is_left_out() {
    assert_eq!(
        reason(&one(vec![Address::Tunnel, Address::Udp6], 0, true, 9), &settings()),
        "no IPv4 UDP address"
    );
}

#[test]
fn expired_address_lists_are_left_out() {
    let now = NOW as i32;
    for (expire_at, expected) in [
        (now, "expired address list expire_at=1700000000"),
        (1, "expired address list expire_at=1"),
        (now + 1, "included"),
        (0, "included"),
        (-1, "included"),
        (i32::MIN, "included"),
    ] {
        assert_eq!(reason(&one(udp(PUBLIC_IP), expire_at, false, 1), &settings()), expected);
    }
}

#[test]
fn private_addresses_are_left_out_unless_allowed() {
    let private = one(udp(0x0A00_0001), 0, false, 1);
    assert_eq!(reason(&private, &settings()), "non-public IPv4 address 10.0.0.1");
    let negative = one(udp(-1062731519), 0, false, 1);
    assert_eq!(reason(&negative, &settings()), "non-public IPv4 address 192.168.1.1");
    let mut allowing = settings();
    allowing.allow_private_ips = true;
    assert_eq!(reason(&private, &allowing), "included");
}

#[test]
fn silent_nodes_are_left_out_unless_they_are_forced_seeds() {
    let mut settings = settings();
    settings.min_successes = 2;
    let seed = one(udp(PUBLIC_IP), 0, true, 1);
    let other = one(udp(PUBLIC_IP), 0, false, 1);
    let low = "success_count 1 is below min_successes 2";
    assert_eq!(reason(&seed, &settings), low);
    assert_eq!(reason(&other, &settings), low);
    assert_eq!(reason(&one(udp(PUBLIC_IP), 0, false, 2), &settings), "included");
    settings.include_seed_nodes = true;
    assert_eq!(reason(&seed, &settings), "included");
    assert_eq!(reason(&other, &settings), low);
}

#[test]
fn first_reason_is_given() {
    assert_eq!(
        reason(&one(udp(0x0A00_0001), 5, false, 0), &settings()),
        "expired address list expire_at=5"
    );
    assert_eq!(
        reason(&one(udp(0x0A00_0001), 0, false, 0), &settings()),
        "non-public IPv4 address 10.0.0.1"
    );
}

#[test]
fn report_entry_repeats_what_is_known() {
    let mut table = one(udp(PUBLIC_IP), 5, true, 1);
    record_outcome(&mut table, "id k", Ok(false), "silent");
    let decision = InclusionDecision { included: true, reason: "because".to_owned() };
    let entry = candidate_report(table.get(0), decision);
    assert_eq!(entry.key_id, "id k");
    assert_eq!(entry.public_key, "k");
    assert_eq!(entry.ip.as_deref(), Some("51.195.248.121"));
    assert_eq!(entry.port, Some(7));
    assert!(entry.seed && entry.included);
    assert_eq!(entry.reason, "because");
    assert_eq!((entry.seen_count, entry.success_count), (1, 1));
    assert_eq!((entry.first_seen_at, entry.last_seen_at), (NOW, NOW));
    assert_eq!((entry.version, entry.expire_at), (6, 5));
    assert_eq!(entry.last_error.as_deref(), Some("silent"));

    let table = one(vec![Address::Udp6], 0, false, 0);
    let decision = InclusionDecision { included: false, reason: String::new() };
    let entry = candidate_report(table.get(0), decision);
    assert_eq!((entry.ip, entry.port, entry.last_error), (None, None, None));
    assert!(!entry.included);
}

#[test]
fn best_nodes_come_first() {
    let mut table = CandidateTable::new();
    add(&mut table, "d", false, 1, 2);
    add(&mut table, "b", false, 2, 1);
    add(&mut table, "c", false, 1, 1);
    add(&mut table, "a", false, 1, 1);
    add(&mut table, "z", false, 9, 0);
    assert_eq!(keys(&table, &rank_fit(&table, &settings(), NOW)), ["d", "b", "a", "c"]);
    assert_eq!(keys(&table, &select_output(&table, &settings(), NOW)), ["d", "b", "a", "c"]);
    assert_eq!(places_of(&table), [0, 1, 2, 3, 4]);
    assert_eq!(
        keys(&table, &arrange(&table, &vec![4, 0, 3, 2], NodeOrder::PublicKey)),
        ["a", "c", "d", "z"]
    );
    assert_eq!(
        keys(&table, &arrange(&table, &vec![4, 0, 3, 2], NodeOrder::Rank)),
        ["d", "a", "c", "z"]
    );
}

#[test]
fn limits_keep_the_best() {
    let mut table = CandidateTable::new();
    add(&mut table, "s1", true, 1, 5);
    add(&mut table, "s2", true, 1, 4);
    add(&mut table, "a", false, 1, 3);
    add(&mut table, "s3", true, 1, 2);
    add(&mut table, "b", false, 1, 1);
    let mut settings = settings();
    settings.max_seed_nodes_in_output = 2;
    assert_eq!(
        keys(&table, &admit_within_limit(&table, &settings, NOW)),
        ["s1", "s2", "a", "b"]
    );
    settings.max_output_nodes = 3;
    assert_eq!(keys(&table, &select_output(&table, &settings, NOW)), ["s1", "s2", "a"]);
    settings.max_seed_nodes_in_output = 0;
    assert_eq!(keys(&table, &select_output(&table, &settings, NOW)), ["a", "b"]);
    settings.max_output_nodes = 0;
    assert!(select_output(&table, &settings, NOW).is_empty());
    let places = vec![0, 1, 2, 3, 4];
    assert_eq!(keys(&table, &limit_seeds(&table, &places, 1)), ["a", "b", "s1"]);
    assert_eq!(keep_at_most(&places, 2), [0, 1]);
    assert_eq!(keep_at_most(&places, 9), places);
}

#[test]
fn nothing_is_left_out_within_the_limits() {
    let mut table = CandidateTable::new();
    for key in ["a", "b", "c"] {
        add(&mut table, key, true, 1, 1);
    }
    assert_eq!(select_output(&table, &settings(), NOW), [0, 1, 2]);
}

#[test]
fn report_tells_what_became_of_each_node() {
    let mut table = CandidateTable::new();
    add(&mut table, "s1", true, 1, 5);
    add(&mut table, "s2", true, 1, 4);
    add(&mut table, "a", false, 1, 3);
    add(&mut table, "b", false, 1, 1);
    add(&mut table, "z", false, 1, 0);
    let mut settings = settings();
    settings.max_seed_nodes_in_output = 1;
    settings.max_output_nodes = 2;
    let report = build_report(&table, &settings, NOW, 2);
    let expected = [
        ("a", true, "included"),
        ("b", false, "excluded by max_output_nodes limit"),
        ("s1", true, "included"),
        ("s2", false, "excluded by max_seed_nodes_in_output limit"),
        ("z", false, "success_count 0 is below min_successes 1"),
    ]
    .map(|(key, included, reason)| (key.to_owned(), included, reason.to_owned()));
    assert_eq!(reasons(&report), expected);
    assert_eq!(report.schema_version, 1);
    assert_eq!(report.generated_at, NOW);
    assert_eq!(report.seed_global_config_path, "in/seed.json");
    assert_eq!(report.output_global_config_path, "out/config.json");
    assert_eq!(report.seed_nodes, 2);
    assert_eq!(report.discovered_nodes, 5);
    assert_eq!(report.included_nodes, 2);
    assert_eq!(report.excluded_nodes, 3);
    assert_eq!(report.summary.crawl_rounds, 6);
    assert_eq!(report.summary.min_successes, 1);
    assert!(!report.summary.include_seed_nodes);
    assert!(!report.summary.allow_private_ips);
    assert_eq!(report.summary.max_output_nodes, 2);
}

#[test]
fn nodes_that_share_a_key_are_marked_together() {
    let mut table = CandidateTable::new();
    for id in ["x", "y"] {
        let mut twin = record("same", udp(PUBLIC_IP), 0);
        twin.key_id = Ok(id.to_owned());
        record_candidate(&mut table, twin, false, NOW).unwrap();
    }
    record_outcome(&mut table, "y", Ok(true), "");
    let report = build_report(&table, &settings(), NOW, 0);
    let entries: Vec<(&str, bool, &str)> = report
        .nodes
        .iter()
        .map(|node| (node.key_id.as_str(), node.included, node.reason.as_str()))
        .collect();
    assert_eq!(
        entries,
        [
            ("x", true, "success_count 0 is below min_successes 1"),
            ("y", true, "included"),
        ]
    );
    assert_eq!(report.included_nodes, 1);
}

#[test]
fn build_replaces_the_static_nodes() {
    let mut table = CandidateTable::new();
    add(&mut table, "a", false, 1, 1);
    add(&mut table, "b", false, 1, 2);
    add(&mut table, "c", false, 1, 0);
    let seed = json(r#"{"v": 1, "dht": {"static_nodes": {"nodes": [0]}, "k": 6}}"#);
    let output = finish_build(&table, &settings(), NOW, 1, seed).unwrap();
    let node = |key: &str| {
        let text = r#"{"@type": "dht.node",
            "id": {"@type": "pub.ed25519", "key": "KEY"},
            "addr_list": {"@type": "adnl.addressList",
                "addrs": [{"@type": "adnl.address.udp", "ip": 868481145, "port": 30303}],
                "version": 3, "reinit_date": 4, "priority": 5, "expire_at": 0},
            "version": 6, "signature": "sig KEY"}"#;
        text.replace("KEY", key)
    };
    let expected = format!(
        r#"{{"v": 1, "dht": {{"@type": "dht.config.global", "k": 6,
            "static_nodes": {{"@type": "dht.nodes", "nodes": [{}, {}]}}}}}}"#,
        node("b"),
        node("a")
    );
    assert_eq!(output.config, json(&expected));
    assert_eq!(output.report.included_nodes, 2);
    assert_eq!(output.report.excluded_nodes, 1);
    assert_eq!(output.report.nodes.len(), 3);
}

#[test]
fn build_needs_somewhere_to_put_the_nodes() {
    let table = CandidateTable::new();
    let error = finish_build(&table, &settings(), NOW, 0, json("{}")).unwrap_err();
    assert!(matches!(error, BuildError::NoDhtObject));
    let error = finish_build(&table, &settings(), NOW, 0, json(r#"{"dht": {}}"#)).unwrap_err();
    assert!(matches!(error, BuildError::NoStaticNodesObject));
}

#[test]
fn candidate_without_udp_address_has_no_json() {
    let table = one(vec![Address::Tunnel], 0, false, 1);
    assert!(matches!(candidate_to_json(&table, 0), Err(BuildError::NoUdpAddresses)));
}

#[test]
fn written_node_reads_back() {
    let table = one(
        vec![Address::Udp6, Address::Udp { ip: -3, port: 9 }, Address::Udp { ip: 4, port: 8 }],
        -7,
        false,
        1,
    );
    let written = candidate_to_json(&table, 0).unwrap();
    let text = |value: &Value| value.as_str().unwrap().to_owned();
    let number = |value: &Value| value.as_i64().map(|number| number as i32);
    assert_eq!(written["id"]["key"], json(r#""k""#));
    assert_eq!(written["signature"], json(r#""sig k""#));
    let list = &written["addr_list"];
    let read = ConfigDhtNode {
        id: ConfigDhtNodeId {
            type_node: Some(text(&written["id"]["@type"])),
            key: Some(Ok(vec![1; 32])),
        },
        addr_list: ConfigAddressList {
            addrs: list["addrs"]
                .as_array()
                .unwrap()
                .iter()
                .map(|address| ConfigAddress {
                    type_node: Some(text(&address["@type"])),
                    ip: address["ip"].as_i64(),
                    port: number(&address["port"]),
                })
                .collect(),
            version: number(&list["version"]),
            reinit_date: number(&list["reinit_date"]),
            priority: number(&list["priority"]),
            expire_at: number(&list["expire_at"]),
        },
        version: number(&written["version"]),
        signature: Some(Ok(vec![9])),
    }
    .read()
    .unwrap()
    .unwrap();
    let node = &table.get(0).node;
    assert!(matches!(read.id, PublicKey::Ed25519(key) if key == [1; 32]));
    assert_eq!(read.addr_list.addrs, node.addr_list.addrs[1..]);
    assert_eq!(read.addr_list.version, node.addr_list.version);
    assert_eq!(read.addr_list.reinit_date, node.addr_list.reinit_date);
    assert_eq!(read.addr_list.priority, node.addr_list.priority);
    assert_eq!(read.addr_list.expire_at, node.addr_list.expire_at);
    assert_eq!(read.version, node.version);
    assert_eq!(read.signature, node.signature);
}

#[test]
fn only_verified_nodes_are_emitted() {
    let mut settings = settings();
    settings.include_seed_nodes = true;
    settings.min_successes = 0;
    let seeds = ["bad", "good"].map(|key| record(key, udp(PUBLIC_IP), 0)).into();
    let mut crawl = Crawl::start(seeds, &vec![false, true], &settings, NOW).unwrap();
    loop {
        match crawl.action() {
            CrawlAction::ReadKnown => {
                crawl.known_nodes(vec![record("told", udp(PUBLIC_IP), 0)]).unwrap();
            }
            CrawlAction::Query(keys) | CrawlAction::Ping(keys) => {
                crawl.outcomes(vec![Ok(false); keys.len()]).unwrap();
            }
            CrawlAction::Finish => break,
        }
    }
    let seed = json(r#"{"dht": {"static_nodes": {}}}"#);
    let output = finish_build(crawl.candidates(), &settings, NOW, 2, seed).unwrap();
    let nodes = output.config["dht"]["static_nodes"]["nodes"].as_array().unwrap();
    let keys: Vec<&str> = nodes.iter().map(|node| node["id"]["key"].as_str().unwrap()).collect();
    assert_eq!(keys, ["told", "good"]);
    assert_eq!(output.report.seed_nodes, 2);
    assert_eq!(output.report.discovered_nodes, 2);
}

#[test]
fn fit_seed_is_left_out_for_better_ones_only() {
    let mut table = CandidateTable::new();
    add(&mut table, "s1", true, 1, 3);
    add(&mut table, "s2", true, 1, 2);
    add(&mut table, "s3", true, 1, 1);
    let mut settings = settings();
    settings.max_seed_nodes_in_output = 2;
    assert_eq!(keys(&table, &select_output(&table, &settings, NOW)), ["s1", "s2"]);
    settings.max_seed_nodes_in_output = 3;
    settings.max_output_nodes = 1;
    assert_eq!(keys(&table, &select_output(&table, &settings, NOW)), ["s1"]);
    settings.max_output_nodes = 3;
    assert_eq!(keys(&table, &select_output(&table, &settings, NOW)), ["s1", "s2", "s3"]);
}

#[test]
fn rejected_seed_that_is_told_of_is_forced_and_limited_as_a_seed() {
    let mut settings = settings();
    settings.crawl_rounds = 0;
    settings.include_seed_nodes = true;
    settings.max_seed_nodes_in_output = 1;
    let seeds = ["bad", "good"].map(|key| record(key, udp(PUBLIC_IP), 0)).into();
    let mut crawl = Crawl::start(seeds, &vec![false, true], &settings, NOW).unwrap();
    crawl.known_nodes(vec![record("bad", udp(PUBLIC_IP), 0)]).unwrap();
    crawl.outcomes(vec![Ok(false), Ok(false)]).unwrap();
    let report = build_report(crawl.candidates(), &settings, NOW, 2);
    let expected = [
        ("bad", true, "included"),
        ("good", false, "excluded by max_seed_nodes_in_output limit"),
    ]
    .map(|(key, included, reason)| (key.to_owned(), included, reason.to_owned()));
    assert_eq!(reasons(&report), expected);
}
