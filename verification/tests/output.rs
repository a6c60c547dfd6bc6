use everscale_global_config_builder::error::BuildError;
use everscale_global_config_builder::node::{Address, AddressList, DhtNode, PublicKey};
use everscale_global_config_builder::output::{
    address_to_json, dht_node_to_json, set_output_dht_nodes,
};
use serde_json::Value;

fn json(text: &str) -> Value {
    serde_json::from_str(text).unwrap()
}

fn node(addrs: Vec<Address>) -> DhtNode {
    DhtNode {
        id: PublicKey::Ed25519([7; 32]),
        addr_list: AddressList {
            addrs,
            version: 11,
            reinit_date: 12,
            priority: 0,
            expire_at: -1,
        },
        version: 13,
        signature: vec![1, 2, 3],
    }
}

#[test]
fn set_output_dht_nodes_replaces_only_static_nodes() {
    let mut config = json(
        r#"{
            "@type": "config.global",
            "dht": {
                "@type": "dht.config.global",
                "k": 6,
                "a": 3,
                "static_nodes": {
                    "@type": "dht.nodes",
                    "nodes": [{"old": true}]
                }
            },
            "validator": {"zero_state": {"file_hash": "keep"}}
        }"#,
    );

    set_output_dht_nodes(&mut config, vec![json(r#"{"new": true}"#)]).unwrap();

    assert_eq!(
        config["dht"]["static_nodes"]["nodes"],
        json(r#"[{"new": true}]"#)
    );
    assert_eq!(
        config["validator"]["zero_state"]["file_hash"],
        Value::String("keep".to_owned())
    );
}

#[test]
fn replacement_keeps_all_else() {
    let mut config = json(
        r#"{"@type": "config.global", "n": 1.5, "dht": {"@type": "mine", "k": 6,
            "static_nodes": {"@type": "also mine", "x": null, "nodes": [1]}}, "l": [true]}"#,
    );
    set_output_dht_nodes(&mut config, vec![]).unwrap();
    assert_eq!(
        config,
        json(
            r#"{"@type": "config.global", "n": 1.5, "dht": {"@type": "mine", "k": 6,
                "static_nodes": {"@type": "also mine", "x": null, "nodes": []}}, "l": [true]}"#,
        )
    );
}

#[test]
fn missing_types_are_added() {
    let mut config = json(r#"{"dht": {"static_nodes": {}}}"#);
    set_output_dht_nodes(&mut config, vec![json("2")]).unwrap();
    assert_eq!(
        config,
        json(
            r#"{"dht": {"@type": "dht.config.global",
                "static_nodes": {"@type": "dht.nodes", "nodes": [2]}}}"#,
        )
    );
}

#[test]
fn last_replacement_wins() {
    let mut once = json(r#"{"dht": {"static_nodes": {}}}"#);
    let mut twice = once.clone();
    set_output_dht_nodes(&mut once, vec![json("2")]).unwrap();
    set_output_dht_nodes(&mut twice, vec![json("1"), json("0")]).unwrap();
    set_output_dht_nodes(&mut twice, vec![json("2")]).unwrap();
    assert_eq!(once, twice);
}

#[test]
fn config_without_dht_object_is_refused() {
    for text in [r#"{"a": 1}"#, r#"{"dht": 3}"#, "[]", "null"] {
        let mut config = json(text);
        let error = set_output_dht_nodes(&mut config, vec![]).unwrap_err();
        assert!(matches!(error, BuildError::NoDhtObject));
        assert_eq!(error.message(), "global config has no dht object");
        assert_eq!(config, json(text));
    }
}

#[test]
fn config_without_static_nodes_object_is_refused() {
    for text in [r#"{"dht": {}}"#, r#"{"dht": {"static_nodes": []}}"#] {
        let mut config = json(text);
        let error = set_output_dht_nodes(&mut config, vec![]).unwrap_err();
        assert!(matches!(error, BuildError::NoStaticNodesObject));
        assert_eq!(error.message(), "global config has no dht.static_nodes object");
        assert_eq!(config["dht"]["@type"], json(r#""dht.config.global""#));
    }
}

#[test]
fn addresses_other_than_udp_have_no_json() {
    assert_eq!(
        address_to_json(&Address::Udp { ip: -5, port: 30303 }),
        Some(json(r#"{"@type": "adnl.address.udp", "ip": -5, "port": 30303}"#))
    );
    assert_eq!(address_to_json(&Address::Udp6), None);
    assert_eq!(address_to_json(&Address::Tunnel), None);
}

#[test]
fn node_is_written_with_its_udp_addresses() {
    let node = node(vec![
        Address::Tunnel,
        Address::Udp { ip: 1, port: 2 },
        Address::Udp6,
        Address::Udp { ip: -3, port: 4 },
    ]);
    assert_eq!(
        dht_node_to_json(&node, "KEY=", "SIG=").unwrap(),
        json(
            r#"{
                "@type": "dht.node",
                "id": {"@type": "pub.ed25519", "key": "KEY="},
                "addr_list": {
                    "@type": "adnl.addressList",
                    "addrs": [
                        {"@type": "adnl.address.udp", "ip": 1, "port": 2},
                        {"@type": "adnl.address.udp", "ip": -3, "port": 4}
                    ],
                    "version": 11,
                    "reinit_date": 12,
                    "priority": 0,
                    "expire_at": -1
                },
                "version": 13,
                "signature": "SIG="
            }"#,
        )
    );
}

#[test]
fn node_without_udp_address_is_not_written() {
    let error = dht_node_to_json(&node(vec![Address::Udp6, Address::Tunnel]), "", "").unwrap_err();
    assert!(matches!(error, BuildError::NoUdpAddresses));
    assert_eq!(error.message(), "DHT node has no serializable UDP addresses");
}

#[test]
fn node_with_another_key_is_not_written() {
    let mut node = node(vec![Address::Udp { ip: 1, port: 2 }]);
    node.id = PublicKey::Unsupported;
    let error = dht_node_to_json(&node, "", "").unwrap_err();
    assert!(matches!(error, BuildError::UnsupportedPublicKey));
    assert_eq!(error.message(), "DHT node has unsupported public key type");
}
