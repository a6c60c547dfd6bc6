use everscale_global_config_builder::error::BuildError;
use everscale_global_config_builder::node::{
    first_udp4_endpoint, truncate_ip, Address, PublicKey,
};
use everscale_global_config_builder::seed::{
    ConfigAddress, ConfigAddressList, ConfigDhtNode, ConfigDhtNodeId, DhtGlobalConfig, DhtNodes,
    TonNodeGlobalConfigJson,
};

fn address(kind: Option<&str>, ip: Option<i64>, port: Option<i32>) -> ConfigAddress {
    ConfigAddress {
        type_node: kind.map(|kind| kind.to_owned()),
        ip,
        port,
    }
}

fn id(kind: &str, key: Vec<u8>) -> ConfigDhtNodeId {
    ConfigDhtNodeId {
        type_node: Some(kind.to_owned()),
        key: Some(Ok(key)),
    }
}

fn entry(key: u8) -> ConfigDhtNode {
    ConfigDhtNode {
        id: id("pub.ed25519", vec![key; 32]),
        addr_list: ConfigAddressList {
            addrs: vec![address(Some("adnl.address.udp"), Some(0x0102_0304), Some(30303))],
            version: Some(1),
            reinit_date: Some(2),
            priority: Some(3),
            expire_at: Some(4),
        },
        version: Some(5),
        signature: Some(Ok(vec![key, 9])),
    }
}

fn config(nodes: Vec<ConfigDhtNode>) -> TonNodeGlobalConfigJson {
    TonNodeGlobalConfigJson {
        dht: DhtGlobalConfig {
            static_nodes: DhtNodes { nodes },
        },
    }
}

#[test]
fn untyped_addresses_are_udp() {
    assert!(address(None, None, None).is_udp());
    assert!(address(Some("adnl.address.udp"), None, None).is_udp());
    assert!(!address(Some("adnl.address.udp6"), None, None).is_udp());
    assert!(!address(Some(""), None, None).is_udp());
}

#[test]
fn key_is_the_first_32_bytes() {
    let bytes: Vec<u8> = (0..40).collect();
    let expected: Vec<u8> = (0..32).collect();
    assert_eq!(id("pub.ed25519", bytes).convert_key().unwrap().to_vec(), expected);
}

#[test]
fn key_errors_name_what_is_wrong() {
    let error = ConfigDhtNodeId::default().convert_key().unwrap_err();
    assert!(matches!(error, BuildError::KeyTypeMissing));
    assert_eq!(error.message(), "DHT node key type is missing");

    let error = id("pub.aes", vec![0; 32]).convert_key().unwrap_err();
    assert!(matches!(&error, BuildError::UnsupportedKeyType(kind) if kind == "pub.aes"));
    assert_eq!(error.message(), "unsupported DHT node key type pub.aes");

    let mut without_key = id("pub.ed25519", vec![]);
    without_key.key = None;
    let error = without_key.convert_key().unwrap_err();
    assert!(matches!(error, BuildError::KeyMissing));
    assert_eq!(error.message(), "DHT node public key is missing");

    let mut bad = id("pub.ed25519", vec![]);
    bad.key = Some(Err("Invalid byte 37".to_owned()));
    let error = bad.convert_key().unwrap_err();
    assert!(matches!(error, BuildError::InvalidBase64(_)));
    assert_eq!(error.message(), "Invalid byte 37");

    let error = id("pub.ed25519", vec![1; 31]).convert_key().unwrap_err();
    assert!(matches!(error, BuildError::KeyTooShort));
    assert_eq!(error.message(), "DHT node public key is shorter than 32 bytes");
}

#[test]
fn complete_nodes_are_read() {
    let mut second = entry(2);
    second.addr_list.addrs = vec![
        address(None, Some(-1), Some(1)),
        address(Some("adnl.address.tunnel"), Some(5), Some(5)),
        address(None, None, Some(6)),
        address(None, Some(7), None),
        address(Some("adnl.address.udp"), Some(0xFFFF_FFFE), Some(2)),
    ];
    let nodes = config(vec![entry(1), second]).seed_nodes().unwrap();
    assert_eq!(nodes.len(), 2);
    assert!(matches!(nodes[0].id, PublicKey::Ed25519(key) if key == [1; 32]));
    assert_eq!(nodes[0].addr_list.addrs, vec![Address::Udp { ip: 0x0102_0304, port: 30303 }]);
    assert_eq!(nodes[0].addr_list.version, 1);
    assert_eq!(nodes[0].addr_list.reinit_date, 2);
    assert_eq!(nodes[0].addr_list.priority, 3);
    assert_eq!(nodes[0].addr_list.expire_at, 4);
    assert_eq!(nodes[0].version, 5);
    assert_eq!(nodes[0].signature, vec![1, 9]);
    assert_eq!(
        nodes[1].addr_list.addrs,
        vec![Address::Udp { ip: -1, port: 1 }, Address::Udp { ip: -2, port: 2 }]
    );
}

#[test]
fn incomplete_nodes_are_passed_over() {
    let mut lacking = Vec::new();
    for part in 0..6 {
        let mut node = entry(3);
        match part {
            0 => node.addr_list.version = None,
            1 => node.addr_list.reinit_date = None,
            2 => node.addr_list.priority = None,
            3 => node.addr_list.expire_at = None,
            4 => node.version = None,
            _ => node.signature = None,
        }
        lacking.push(node);
    }
    lacking.push(entry(4));
    let nodes = config(lacking).get_dht_nodes_configs().unwrap();
    assert_eq!(nodes.len(), 1);
    assert!(matches!(nodes[0].id, PublicKey::Ed25519(key) if key == [4; 32]));
}

#[test]
fn incomplete_node_with_a_bad_key_is_an_error() {
    let mut node = entry(1);
    node.version = None;
    node.id.key = None;
    let error = config(vec![entry(2), node]).get_dht_nodes_configs().unwrap_err();
    assert!(matches!(error, BuildError::KeyMissing));
}

#[test]
fn first_error_is_reported() {
    let mut bad_signature = entry(1);
    bad_signature.signature = Some(Err("bad signature".to_owned()));
    let mut bad_key = entry(2);
    bad_key.id.type_node = None;
    let error = config(vec![entry(3), bad_signature, bad_key]).seed_nodes().unwrap_err();
    assert_eq!(error.message(), "bad signature");
}

#[test]
fn seed_config_needs_a_complete_node() {
    let mut node = entry(1);
    node.signature = None;
    assert!(config(vec![]).get_dht_nodes_configs().unwrap().is_empty());
    for nodes in [vec![], vec![node]] {
        let error = config(nodes).seed_nodes().unwrap_err();
        assert!(matches!(error, BuildError::NoSeedNodes));
        assert_eq!(error.message(), "seed config has no valid DHT static nodes");
    }
}

#[test]
fn sign_of_an_address_is_irrelevant() {
    for ip in [0, 1, -1, 0x33C3_F879, 0xC0A8_0101, -1062731519, i64::MAX, i64::MIN, 1 << 32] {
        assert_eq!(truncate_ip(ip), ip as i32);
    }
    let mut node = entry(1);
    node.addr_list.addrs = vec![address(None, Some(0xC0A8_0101), Some(80))];
    let unsigned = node.read().unwrap().unwrap();
    node.addr_list.addrs = vec![address(None, Some(-1062731519), Some(80))];
    let signed = node.read().unwrap().unwrap();
    let endpoint = first_udp4_endpoint(&signed).unwrap();
    assert_eq!(first_udp4_endpoint(&unsigned), Some(endpoint));
    assert_eq!(endpoint.ip.to_text(), "192.168.1.1");
    assert_eq!(endpoint.port, 80);
}

#[test]
fn endpoint_is_the_first_udp_address() {
    let mut node = entry(1).read().unwrap().unwrap();
    node.addr_list.addrs = vec![
        Address::Udp6,
        Address::Udp { ip: 0x0102_0304, port: 7 },
        Address::Udp { ip: 9, port: 9 },
    ];
    let endpoint = first_udp4_endpoint(&node).unwrap();
    assert_eq!(endpoint.ip.to_text(), "1.2.3.4");
    assert_eq!(endpoint.port, 7);
    node.addr_list.addrs = vec![Address::Tunnel];
    assert_eq!(first_udp4_endpoint(&node), None);
}
