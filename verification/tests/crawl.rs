use everscale_global_config_builder::candidate::{candidate_keys, NodeRecord, Outcome, PeerError};
use everscale_global_config_builder::config::AppConfig;
use everscale_global_config_builder::crawl::{
    accepted_seeds, after_find_nodes, after_ping, after_signed_list, rejected_keys,
    require_accepted_seed, Crawl, CrawlAction, ExpandStep, PeerReply,
};
use everscale_global_config_builder::error::BuildError;
use everscale_global_config_builder::node::{Address, AddressList, DhtNode, PublicKey};
use std::path::PathBuf;

fn record(key: &str) -> NodeRecord {
    NodeRecord {
        node: DhtNode {
            id: PublicKey::Ed25519([1; 32]),
            addr_list: AddressList {
                addrs: vec![Address::Udp { ip: 1, port: 2 }],
                version: 0,
                reinit_date: 0,
                priority: 0,
                expire_at: 0,
            },
            version: 1,
            signature: vec![],
        },
        key_id: Ok(key.to_owned()),
        public_key: key.to_owned(),
        signature: String::new(),
    }
}

fn settings(crawl_rounds: usize, workers: usize, recursive_crawl: bool) -> AppConfig {
    AppConfig {
        seed_global_config_path: PathBuf::from("seed.json"),
        output_global_config_path: PathBuf::from("out.json"),
        report_path: PathBuf::from("report.json"),
        local_adnl_addr: String::new(),
        crawl_rounds,
        recursive_crawl,
        workers,
        peer_timeout_secs: 1,
        max_known_nodes: 10,
        max_output_nodes: 10,
        max_seed_nodes_in_output: 3,
        min_successes: 1,
        include_seed_nodes: false,
        allow_private_ips: false,
        compact: false,
    }
}

fn run(crawl: &mut Crawl, known: &[&str], answer: fn(&str, bool) -> Outcome) -> Vec<String> {
    let mut log = Vec::new();
    loop {
        match crawl.action() {
            CrawlAction::ReadKnown => {
                log.push("read".to_owned());
                crawl.known_nodes(known.iter().map(|key| record(key)).collect()).unwrap();
            }
            CrawlAction::Query(keys) => {
                log.push(format!("query {}", keys.join(" ")));
                crawl.outcomes(keys.iter().map(|key| answer(key, false)).collect()).unwrap();
            }
            CrawlAction::Ping(keys) => {
                log.push(format!("ping {}", keys.join(" ")));
                crawl.outcomes(keys.iter().map(|key| answer(key, true)).collect()).unwrap();
            }
            CrawlAction::Finish => return log,
        }
    }
}

fn start(seeds: Vec<NodeRecord>, config: AppConfig, now: u64) -> Result<Crawl, BuildError> {
    let accepted = vec![true; seeds.len()];
    Crawl::start(seeds, &accepted, &config, now)
}

fn all_answer(_: &str, _: bool) -> Outcome {
    Ok(true)
}

#[test]
fn plain_crawl_queries_the_seeds_and_pings_all() {
    let seeds = vec![record("s2"), record("s1")];
    let mut crawl = start(seeds, settings(2, 32, false), 5).unwrap();
    let log = run(&mut crawl, &["a", "s1"], all_answer);
    assert_eq!(
        log,
        ["read", "query s1 s2", "read", "query s1 s2", "read", "ping a s1 s2"]
    );
    let table = crawl.candidates();
    assert_eq!(candidate_keys(table), ["a", "s1", "s2"]);
    let successes: Vec<u32> = (0..3).map(|i| table.get(i).success_count).collect();
    let sightings: Vec<u32> = (0..3).map(|i| table.get(i).seen_count).collect();
    let seeds: Vec<bool> = (0..3).map(|i| table.get(i).seed).collect();
    assert_eq!(successes, [1, 3, 3]);
    assert_eq!(sightings, [3, 4, 1]);
    assert_eq!(seeds, [false, true, true]);
    assert_eq!(table.get(0).first_seen_at, 5);
}

#[test]
fn recursive_crawl_queries_all() {
    let mut crawl = start(vec![record("s")], settings(1, 32, true), 5).unwrap();
    assert_eq!(
        run(&mut crawl, &["a", "b"], all_answer),
        ["read", "query a b s", "read", "ping a b s"]
    );
}

#[test]
fn peers_are_called_in_batches() {
    let mut crawl = start(vec![record("s")], settings(1, 2, true), 5).unwrap();
    assert_eq!(
        run(&mut crawl, &["a", "b", "c", "d"], all_answer),
        [
            "read", "query a b", "query c d", "query s", "read", "ping a b", "ping c d", "ping s"
        ]
    );
}

#[test]
fn without_workers_peers_are_called_one_by_one() {
    let mut crawl = start(vec![record("s")], settings(1, 0, true), 5).unwrap();
    assert_eq!(
        run(&mut crawl, &["a"], all_answer),
        ["read", "query a", "query s", "read", "ping a", "ping s"]
    );
}

#[test]
fn grouping_is_irrelevant() {
    fn answer(key: &str, ping: bool) -> Outcome {
        match (key, ping) {
            ("a", false) => Err(PeerError::FindNodes),
            ("a", true) => Ok(true),
            ("b", _) => Ok(false),
            _ => Ok(!ping),
        }
    }
    let mut results = Vec::new();
    for workers in [1, 2, 3, 100] {
        let mut crawl = start(vec![record("s")], settings(3, workers, true), 5).unwrap();
        run(&mut crawl, &["a", "b", "c"], answer);
        let table = crawl.candidates();
        let found: Vec<(String, u32, u32, Option<String>)> = (0..table.len())
            .map(|i| table.get(i))
            .map(|c| (c.key_id.clone(), c.success_count, c.seen_count, c.last_error.clone()))
            .collect();
        results.push(found);
    }
    let silent = Some("DHT ping returned no response".to_owned());
    assert_eq!(
        results[0],
        [
            ("a".to_owned(), 1, 4, None),
            ("b".to_owned(), 0, 4, silent.clone()),
            ("c".to_owned(), 3, 4, silent.clone()),
            ("s".to_owned(), 3, 1, silent),
        ]
    );
    assert!(results.iter().all(|found| *found == results[0]));
}

#[test]
fn without_rounds_the_crawl_only_pings() {
    let mut crawl = start(vec![record("s")], settings(0, 8, true), 5).unwrap();
    assert_eq!(run(&mut crawl, &["a"], all_answer), ["read", "ping a s"]);
}

#[test]
fn silent_query_is_noted() {
    let mut crawl = start(vec![record("s")], settings(1, 8, false), 5).unwrap();
    crawl.known_nodes(vec![]).unwrap();
    crawl.outcomes(vec![Ok(false)]).unwrap();
    assert_eq!(
        crawl.candidates().get(0).last_error.as_deref(),
        Some("peer returned no DHT data")
    );
}

#[test]
fn events_out_of_turn_are_refused() {
    let mut crawl = start(vec![record("s")], settings(1, 8, false), 5).unwrap();
    let error = crawl.outcomes(vec![Ok(true)]).unwrap_err();
    assert!(matches!(error, BuildError::OutOfTurn));
    assert!(!error.message().is_empty());
    crawl.known_nodes(vec![]).unwrap();
    assert!(matches!(crawl.known_nodes(vec![record("a")]), Err(BuildError::OutOfTurn)));
    assert!(matches!(crawl.outcomes(vec![]), Err(BuildError::OutOfTurn)));
    assert!(matches!(crawl.outcomes(vec![Ok(true), Ok(true)]), Err(BuildError::OutOfTurn)));
    assert_eq!(candidate_keys(crawl.candidates()), ["s"]);
    assert_eq!(crawl.candidates().get(0).success_count, 0);
    assert!(matches!(crawl.action(), CrawlAction::Query(keys) if keys == ["s"]));
}

#[test]
fn broken_nodes_stop_the_crawl() {
    let mut broken = record("b");
    broken.key_id = Err("broken".to_owned());
    let mut other = record("o");
    other.node.id = PublicKey::Unsupported;
    let error = start(vec![record("s"), broken], settings(1, 8, false), 5).unwrap_err();
    assert_eq!(error.message(), "broken");
    let mut crawl = start(vec![record("s")], settings(1, 8, false), 5).unwrap();
    let error = crawl.known_nodes(vec![record("a"), other]).unwrap_err();
    assert_eq!(error.message(), "DHT node has unsupported public key type");
    assert_eq!(candidate_keys(crawl.candidates()), ["a", "s"]);
}

#[test]
fn failed_signed_address_list_ends_the_query() {
    assert_eq!(
        after_signed_list(PeerReply::Failed),
        ExpandStep::Done(Err(PeerError::SignedAddressList))
    );
    for (reply, signed) in [
        (PeerReply::TimedOut, false),
        (PeerReply::Answered(false), false),
        (PeerReply::Answered(true), true),
    ] {
        assert_eq!(after_signed_list(reply), ExpandStep::FindNodes { signed });
    }
}

#[test]
fn either_answer_counts() {
    for signed in [false, true] {
        assert_eq!(after_find_nodes(signed, PeerReply::Failed), Err(PeerError::FindNodes));
        assert_eq!(after_find_nodes(signed, PeerReply::TimedOut), Ok(signed));
        assert_eq!(after_find_nodes(signed, PeerReply::Answered(false)), Ok(signed));
        assert_eq!(after_find_nodes(signed, PeerReply::Answered(true)), Ok(true));
    }
}

#[test]
fn ping_tells_whether_the_peer_is_alive() {
    assert_eq!(after_ping(PeerReply::Failed), Err(PeerError::Ping));
    assert_eq!(after_ping(PeerReply::TimedOut), Ok(false));
    assert_eq!(after_ping(PeerReply::Answered(false)), Ok(false));
    assert_eq!(after_ping(PeerReply::Answered(true)), Ok(true));
}

#[test]
fn network_has_to_take_a_seed() {
    assert!(require_accepted_seed(&vec![false, true, false]).is_ok());
    for accepted in [vec![], vec![false, false]] {
        let error = require_accepted_seed(&accepted).unwrap_err();
        assert!(matches!(error, BuildError::NoAcceptedSeeds));
        assert_eq!(
            error.message(),
            "seed config has no signed DHT nodes accepted by ever-adnl"
        );
    }
}

#[test]
fn accepted_seeds_are_those_that_the_network_took() {
    let seeds = vec![record("a"), record("b"), record("c"), record("d")];
    let kept = accepted_seeds(seeds, &vec![true, false, false, true]).unwrap();
    let keys: Vec<String> = kept.into_iter().map(|record| record.key_id.unwrap()).collect();
    assert_eq!(keys, ["a", "d"]);
    for accepted in [vec![], vec![true], vec![true, true, true], vec![false, false]] {
        let error = accepted_seeds(vec![record("a"), record("b")], &accepted).unwrap_err();
        assert!(matches!(error, BuildError::NoAcceptedSeeds));
    }
}

#[test]
fn rejected_seed_is_no_candidate() {
    let seeds = vec![record("bad"), record("good")];
    let config = settings(2, 8, true);
    let mut crawl = Crawl::start(seeds, &vec![false, true], &config, 5).unwrap();
    let log = run(&mut crawl, &["a"], all_answer);
    assert_eq!(
        log,
        ["read", "query a good", "read", "query a good", "read", "ping a good"]
    );
    assert_eq!(candidate_keys(crawl.candidates()), ["a", "good"]);
}

#[test]
fn rejected_seed_that_the_network_tells_of_is_a_seed() {
    let seeds = vec![record("bad"), record("good")];
    let config = settings(1, 8, false);
    let mut crawl = Crawl::start(seeds, &vec![false, true], &config, 5).unwrap();
    assert_eq!(candidate_keys(crawl.candidates()), ["good"]);
    crawl.known_nodes(vec![record("bad"), record("other")]).unwrap();
    let bad = crawl.candidates().get(0);
    assert_eq!((bad.key_id.as_str(), bad.seed, bad.seen_count), ("bad", true, 2));
    assert!(matches!(crawl.action(), CrawlAction::Query(keys) if keys == ["bad", "good"]));
    crawl.outcomes(vec![Ok(true), Ok(false)]).unwrap();
    crawl.known_nodes(vec![record("bad")]).unwrap();
    let table = crawl.candidates();
    let found: Vec<(&str, bool, u32)> = (0..table.len())
        .map(|i| table.get(i))
        .map(|c| (c.key_id.as_str(), c.seed, c.seen_count))
        .collect();
    assert_eq!(found, [("bad", true, 3), ("good", true, 1), ("other", false, 1)]);
}

#[test]
fn every_sighting_of_a_seed_counts() {
    let seeds = vec![record("s"), record("s"), record("s"), record("t")];
    let config = settings(0, 8, false);
    let mut accepted = vec![false, true, false, false];
    let keys = rejected_keys(&seeds, &accepted);
    assert_eq!(keys, ["s", "s", "t"]);
    accepted[3] = true;
    let mut crawl = Crawl::start(seeds, &accepted, &config, 5).unwrap();
    crawl.known_nodes(vec![record("s")]).unwrap();
    assert_eq!(crawl.candidates().get(0).seen_count, 4);
    assert_eq!(crawl.candidates().get(1).seen_count, 1);
}

#[test]
fn broken_seed_stops_the_crawl_though_it_was_rejected() {
    let mut broken = record("b");
    broken.key_id = Err("broken".to_owned());
    let config = settings(1, 8, false);
    let seeds = vec![record("s"), broken];
    let error = Crawl::start(seeds, &vec![true, false], &config, 5).unwrap_err();
    assert_eq!(error.message(), "broken");
}

#[test]
fn crawl_needs_an_accepted_seed() {
    let config = settings(1, 8, false);
    for accepted in [vec![], vec![false], vec![true, true]] {
        assert!(matches!(
            Crawl::start(vec![record("s")], &accepted, &config, 5),
            Err(BuildError::NoAcceptedSeeds)
        ));
    }
}
