use everscale_global_config_builder::candidate::{
    candidate_keys, check_records, query_targets, record_candidate, record_nodes, record_outcome,
    record_sighting, CandidateTable, NodeRecord, PeerError,
};
use everscale_global_config_builder::error::BuildError;
use everscale_global_config_builder::node::{Address, AddressList, DhtNode, PublicKey};

fn record(key: &str, version: i32) -> NodeRecord {
    NodeRecord {
        node: DhtNode {
            id: PublicKey::Ed25519([1; 32]),
            addr_list: AddressList {
                addrs: vec![Address::Udp { ip: 1, port: 2 }],
                version: 0,
                reinit_date: 0,
                priority: 0,
                expire_at: 0,
            },
            version,
            signature: vec![],
        },
        key_id: Ok(key.to_owned()),
        public_key: format!("public {key} {version}"),
        signature: format!("signature {key} {version}"),
    }
}

fn table(keys: &[&str]) -> CandidateTable {
    let mut table = CandidateTable::new();
    for key in keys {
        record_candidate(&mut table, record(key, 1), false, 100).unwrap();
    }
    table
}

#[test]
fn candidates_stand_in_the_order_of_their_keys() {
    let table = table(&["b", "a", "c", "B", "aa", "a"]);
    assert_eq!(candidate_keys(&table), ["B", "a", "aa", "b", "c"]);
    assert_eq!(table.len(), 5);
    assert_eq!(table.find("aa"), Some(2));
    assert_eq!(table.find("ab"), None);
    assert_eq!(table.get(1).seen_count, 2);
}

#[test]
fn order_of_arrival_is_irrelevant() {
    assert_eq!(
        candidate_keys(&table(&["x", "y", "z"])),
        candidate_keys(&table(&["z", "x", "y"]))
    );
}

#[test]
fn new_candidate_starts_afresh() {
    let mut table = CandidateTable::new();
    record_candidate(&mut table, record("k", 4), true, 77).unwrap();
    let candidate = table.get(0);
    assert_eq!(candidate.key_id, "k");
    assert_eq!(candidate.public_key, "public k 4");
    assert_eq!(candidate.signature, "signature k 4");
    assert_eq!(candidate.first_seen_at, 77);
    assert_eq!(candidate.last_seen_at, 77);
    assert_eq!(candidate.seen_count, 1);
    assert_eq!(candidate.success_count, 0);
    assert!(candidate.seed);
    assert_eq!(candidate.last_error, None);
}

#[test]
fn seen_again_keeps_history() {
    let mut table = CandidateTable::new();
    record_candidate(&mut table, record("k", 1), true, 10).unwrap();
    record_outcome(&mut table, "k", Ok(true), "silent");
    record_outcome(&mut table, "k", Ok(false), "silent");
    record_candidate(&mut table, record("k", 2), false, 20).unwrap();
    let candidate = table.get(0);
    assert_eq!(candidate.node.version, 2);
    assert_eq!(candidate.public_key, "public k 2");
    assert_eq!(candidate.signature, "signature k 2");
    assert_eq!(candidate.first_seen_at, 10);
    assert_eq!(candidate.last_seen_at, 20);
    assert_eq!(candidate.seen_count, 2);
    assert_eq!(candidate.success_count, 1);
    assert!(candidate.seed);
    assert_eq!(candidate.last_error.as_deref(), Some("silent"));
}

#[test]
fn outcomes_are_noted() {
    let mut table = table(&["k", "other"]);
    record_outcome(&mut table, "k", Err(PeerError::Ping), "silent");
    assert_eq!(table.get(0).last_error.as_deref(), Some("DHT ping failed"));
    record_outcome(&mut table, "k", Err(PeerError::FindNodes), "silent");
    assert_eq!(table.get(0).last_error.as_deref(), Some("find_dht_nodes failed"));
    record_outcome(&mut table, "k", Err(PeerError::SignedAddressList), "silent");
    assert_eq!(
        table.get(0).last_error.as_deref(),
        Some("get_signed_address_list failed")
    );
    assert_eq!(table.get(0).success_count, 0);
    record_outcome(&mut table, "k", Ok(true), "silent");
    assert_eq!(table.get(0).last_error, None);
    assert_eq!(table.get(0).success_count, 1);
    record_outcome(&mut table, "unknown", Ok(true), "silent");
    assert_eq!(table.len(), 2);
    assert_eq!(table.get(1).success_count, 0);
}

#[test]
fn counts_do_not_overflow() {
    let mut table = table(&["k"]);
    let candidate = table.find_candidate_by_key_mut("k").unwrap();
    candidate.seen_count = u32::MAX;
    candidate.success_count = u32::MAX;
    record_candidate(&mut table, record("k", 1), false, 1).unwrap();
    record_outcome(&mut table, "k", Ok(true), "silent");
    assert_eq!(table.get(0).seen_count, u32::MAX);
    assert_eq!(table.get(0).success_count, u32::MAX);
    assert!(table.find_candidate_by_key_mut("unknown").is_none());
}

#[test]
fn node_without_key_id_is_not_recorded() {
    let mut table = CandidateTable::new();
    let mut broken = record("k", 1);
    broken.key_id = Err("no such key".to_owned());
    let error = record_candidate(&mut table, broken, false, 1).unwrap_err();
    assert!(matches!(&error, BuildError::NoKeyId(reason) if reason == "no such key"));
    assert_eq!(error.message(), "no such key");
    assert_eq!(table.len(), 0);
}

#[test]
fn node_with_another_key_is_not_recorded() {
    let mut table = CandidateTable::new();
    let mut other = record("k", 1);
    other.node.id = PublicKey::Unsupported;
    let error = record_candidate(&mut table, other, false, 1).unwrap_err();
    assert!(matches!(error, BuildError::UnsupportedPublicKey));
    assert_eq!(table.len(), 0);
}

#[test]
fn recording_stops_at_the_first_error() {
    let mut table = CandidateTable::new();
    let mut broken = record("b", 1);
    broken.key_id = Err("broken".to_owned());
    let records = vec![record("a", 1), broken, record("c", 1)];
    assert_eq!(check_records(&records).unwrap_err().message(), "broken");
    let error = record_nodes(&mut table, &vec![], records, false, 1).unwrap_err();
    assert_eq!(error.message(), "broken");
    assert_eq!(candidate_keys(&table), ["a"]);
}

#[test]
fn only_seeds_are_marked() {
    let mut table = CandidateTable::new();
    record_nodes(&mut table, &vec![], vec![record("s", 1)], true, 1).unwrap();
    record_nodes(&mut table, &vec![], vec![record("a", 1), record("s", 2)], false, 2).unwrap();
    assert_eq!(query_targets(&table, false), ["s"]);
    assert_eq!(query_targets(&table, true), ["a", "s"]);
    record_nodes(&mut table, &vec![], vec![record("a", 1)], true, 3).unwrap();
    assert_eq!(query_targets(&table, false), ["a", "s"]);
}

#[test]
fn earlier_sightings_of_a_new_node_count() {
    let mut table = CandidateTable::new();
    let earlier = vec!["a".to_owned(), "b".to_owned(), "a".to_owned()];
    record_sighting(&mut table, &earlier, record("a", 1), false, 5).unwrap();
    record_sighting(&mut table, &earlier, record("a", 2), false, 6).unwrap();
    record_sighting(&mut table, &earlier, record("c", 1), false, 6).unwrap();
    let a = table.get(0);
    assert_eq!((a.seen_count, a.seed, a.node.version), (4, true, 2));
    assert_eq!((a.first_seen_at, a.last_seen_at, a.success_count), (5, 6, 0));
    let c = table.get(1);
    assert_eq!((c.key_id.as_str(), c.seen_count, c.seed), ("c", 1, false));
    let mut broken = record("b", 1);
    broken.key_id = Err("broken".to_owned());
    assert!(record_sighting(&mut table, &earlier, broken, false, 7).is_err());
    assert_eq!(table.len(), 2);
}

#[test]
fn complete_records_pass() {
    assert!(check_records(&vec![]).is_ok());
    assert!(check_records(&vec![record("a", 1), record("b", 1)]).is_ok());
}
