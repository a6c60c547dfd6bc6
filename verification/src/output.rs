//! The configuration that is written: DHT nodes as JSON, and their place in it.

use crate::error::{BuildError, ErrorView};
use crate::json::{
    entry_mut, has_entry, int_value, json_view, json_views, list_value, member_mut, new_object,
    object_mut, object_value, put_entry, text_value, Json,
};
use crate::node::{
    law_endpoint_needs_udp, udp_addresses, Address, DhtNode, DhtNodeView, PublicKey,
};
use vstd::prelude::*;
use vstd::string::*;

verus! {

/// A UDP address in JSON.
pub open spec fn udp_json(ip: i32, port: i32) -> Json {
    Json::Object(
        map![
            "@type"@ => Json::Text("adnl.address.udp"@),
            "ip"@ => Json::Int(ip as int),
            "port"@ => Json::Int(port as int),
        ],
    )
}

/// The JSON of an address; only UDP addresses have one.
pub open spec fn address_json(address: Address) -> Option<Json> {
    match address {
        Address::Udp { ip, port } => Some(udp_json(ip, port)),
        _ => None,
    }
}

/// The JSON of the addresses of a list that have one, in order.
pub open spec fn addresses_json(addrs: Seq<Address>) -> Seq<Json> {
    udp_addresses(addrs).map_values(|address: Address| address_json(address)->0)
}

/// The JSON of a node with an Ed25519 key, whose key and signature are these texts in base64.
pub open spec fn node_json(
    node: DhtNodeView,
    public_key: Seq<char>,
    signature: Seq<char>,
) -> Json {
    Json::Object(
        map![
            "@type"@ => Json::Text("dht.node"@),
            "id"@ => Json::Object(
                map!["@type"@ => Json::Text("pub.ed25519"@), "key"@ => Json::Text(public_key)],
            ),
            "addr_list"@ => Json::Object(
                map![
                    "@type"@ => Json::Text("adnl.addressList"@),
                    "addrs"@ => Json::List(addresses_json(node.addr_list.addrs)),
                    "version"@ => Json::Int(node.addr_list.version as int),
                    "reinit_date"@ => Json::Int(node.addr_list.reinit_date as int),
                    "priority"@ => Json::Int(node.addr_list.priority as int),
                    "expire_at"@ => Json::Int(node.addr_list.expire_at as int),
                ],
            ),
            "version"@ => Json::Int(node.version as int),
            "signature"@ => Json::Text(signature),
        ],
    )
}

/// An address as JSON, `None` where it is not IPv4 over UDP.
pub fn address_to_json(address: &Address) -> (r: Option<serde_json::Value>)
    ensures
        match address_json(*address) {
            Some(json) => r is Some && json_view(r->0) == json,
            None => r is None,
        },
{
    match address {
        Address::Udp { ip, port } => {
            let mut object = new_object();
            put_entry(&mut object, "@type".to_owned(), text_value("adnl.address.udp".to_owned()));
            put_entry(&mut object, "ip".to_owned(), int_value(*ip));
            put_entry(&mut object, "port".to_owned(), int_value(*port));
            Some(object_value(object))
        },
        Address::Udp6 | Address::Tunnel => None,
    }
}

fn addresses_to_json(addrs: &Vec<Address>) -> (r: Vec<serde_json::Value>)
    ensures
        json_views(r@) == addresses_json(addrs@),
{
    let mut r: Vec<serde_json::Value> = Vec::new();
    let mut i: usize = 0;
    proof {
        reveal(Seq::filter);
        assert(json_views(r@) =~= addresses_json(addrs@.take(0)));
    }
    while i < addrs.len()
        invariant
            i <= addrs@.len(),
            json_views(r@) == addresses_json(addrs@.take(i as int)),
        decreases addrs@.len() - i,
    {
        let ghost before = r@;
        proof {
            reveal(Seq::filter);
            assert(addrs@.take(i + 1).drop_last() =~= addrs@.take(i as int));
        }
        match address_to_json(&addrs[i]) {
            Some(value) => {
                r.push(value);
                assert(json_views(r@) =~= json_views(before).push(json_view(value)));
                assert(addresses_json(addrs@.take(i + 1)) =~= addresses_json(
                    addrs@.take(i as int),
                ).push(json_view(value)));
            },
            None => {},
        }
        i = i + 1;
    }
    assert(addrs@.take(i as int) =~= addrs@);
    r
}

/// Why a node cannot be written, if it cannot.
pub open spec fn write_error(node: DhtNodeView) -> Option<ErrorView> {
    if udp_addresses(node.addr_list.addrs).len() == 0 {
        Some(ErrorView::NoUdpAddresses)
    } else if node.id is Ed25519 {
        None
    } else {
        Some(ErrorView::UnsupportedPublicKey)
    }
}

/// A node can be written exactly if one of its addresses is UDP and its key is an Ed25519 key; that
/// it has no such address comes first.
pub proof fn law_writing_needs_an_address_and_a_key(node: DhtNodeView, i: int)
    ensures
        0 <= i < node.addr_list.addrs.len() && node.addr_list.addrs[i] is Udp ==> write_error(node)
            == if node.id is Ed25519 {
            None
        } else {
            Some(ErrorView::UnsupportedPublicKey)
        },
        (forall|j: int|
            0 <= j < node.addr_list.addrs.len() ==> !(#[trigger] node.addr_list.addrs[j] is Udp))
            ==> write_error(node) == Some(ErrorView::NoUdpAddresses),
{
    law_endpoint_needs_udp(node.addr_list.addrs);
}

/// A node as JSON. Its key and its signature in base64 are `public_key` and `signature`.
pub fn dht_node_to_json(node: &DhtNode, public_key: &str, signature: &str) -> (r: Result<
    serde_json::Value,
    BuildError,
>)
    ensures
        match r {
            Ok(value) => write_error(node@) is None && json_view(value) == node_json(
                node@,
                public_key@,
                signature@,
            ),
            Err(error) => write_error(node@) == Some(error@),
        },
{
    let addrs = addresses_to_json(&node.addr_list.addrs);
    assert(json_views(addrs@).len() == addrs@.len());
    assert(addresses_json(node@.addr_list.addrs).len() == udp_addresses(
        node@.addr_list.addrs,
    ).len());
    if addrs.len() == 0 {
        return Err(BuildError::NoUdpAddresses);
    }
    match node.id {
        PublicKey::Ed25519(_) => {},
        PublicKey::Unsupported => {
            return Err(BuildError::UnsupportedPublicKey);
        },
    }
    let mut id = new_object();
    put_entry(&mut id, "@type".to_owned(), text_value("pub.ed25519".to_owned()));
    put_entry(&mut id, "key".to_owned(), text_value(public_key.to_owned()));
    let mut list = new_object();
    put_entry(&mut list, "@type".to_owned(), text_value("adnl.addressList".to_owned()));
    put_entry(&mut list, "addrs".to_owned(), list_value(addrs));
    put_entry(&mut list, "version".to_owned(), int_value(node.addr_list.version));
    put_entry(&mut list, "reinit_date".to_owned(), int_value(node.addr_list.reinit_date));
    put_entry(&mut list, "priority".to_owned(), int_value(node.addr_list.priority));
    put_entry(&mut list, "expire_at".to_owned(), int_value(node.addr_list.expire_at));
    let mut object = new_object();
    put_entry(&mut object, "@type".to_owned(), text_value("dht.node".to_owned()));
    put_entry(&mut object, "id".to_owned(), object_value(id));
    put_entry(&mut object, "addr_list".to_owned(), object_value(list));
    put_entry(&mut object, "version".to_owned(), int_value(node.version));
    put_entry(&mut object, "signature".to_owned(), text_value(signature.to_owned()));
    Ok(object_value(object))
}

/// The members of the object that is the member `key` of an object; `None` where there is none.
pub open spec fn object_member(value: Json, key: Seq<char>) -> Option<Map<Seq<char>, Json>> {
    match value {
        Json::Object(entries) => if entries.dom().contains(key) {
            match entries[key] {
                Json::Object(member) => Some(member),
                _ => None,
            }
        } else {
            None
        },
        _ => None,
    }
}

/// The members of an object with a type: its own, or else `kind`.
pub open spec fn with_type(
    entries: Map<Seq<char>, Json>,
    kind: Seq<char>,
) -> Map<Seq<char>, Json> {
    if entries.dom().contains("@type"@) {
        entries
    } else {
        entries.insert("@type"@, Json::Text(kind))
    }
}

/// An object with another value for one of its members.
pub open spec fn with_member(value: Json, key: Seq<char>, member: Json) -> Json {
    match value {
        Json::Object(entries) => Json::Object(entries.insert(key, member)),
        _ => value,
    }
}

/// The `dht` object of a configuration, with its type.
pub open spec fn typed_dht(config: Json) -> Option<Map<Seq<char>, Json>> {
    match object_member(config, "dht"@) {
        Some(dht) => Some(with_type(dht, "dht.config.global"@)),
        None => None,
    }
}

/// The `dht.static_nodes` object of a configuration, with its type.
pub open spec fn typed_static_nodes(config: Json) -> Option<Map<Seq<char>, Json>> {
    match typed_dht(config) {
        Some(dht) => match object_member(Json::Object(dht), "static_nodes"@) {
            Some(list) => Some(with_type(list, "dht.nodes"@)),
            None => None,
        },
        None => None,
    }
}

/// A configuration with other static nodes.
pub open spec fn with_nodes(config: Json, nodes: Seq<Json>) -> Json {
    with_member(
        config,
        "dht"@,
        Json::Object(
            typed_dht(config)->0.insert(
                "static_nodes"@,
                Json::Object(typed_static_nodes(config)->0.insert("nodes"@, Json::List(nodes))),
            ),
        ),
    )
}

/// Replaces the static DHT nodes of a configuration. Where its `dht` object or the list in it has
/// no type, the type is added; all else stays.
pub fn set_output_dht_nodes(
    config: &mut serde_json::Value,
    nodes: Vec<serde_json::Value>,
) -> (r: Result<(), BuildError>)
    ensures
        match r {
            Ok(_) => {
                &&& typed_static_nodes(json_view(*old(config))) is Some
                &&& json_view(*final(config)) == with_nodes(
                    json_view(*old(config)),
                    json_views(nodes@),
                )
            },
            Err(BuildError::NoDhtObject) => {
                &&& typed_dht(json_view(*old(config))) is None
                &&& json_view(*final(config)) == json_view(*old(config))
            },
            Err(BuildError::NoStaticNodesObject) => {
                &&& typed_dht(json_view(*old(config))) is Some
                &&& typed_static_nodes(json_view(*old(config))) is None
                &&& json_view(*final(config)) == with_member(
                    json_view(*old(config)),
                    "dht"@,
                    Json::Object(typed_dht(json_view(*old(config)))->0),
                )
            },
            Err(_) => false,
        },
{
    let ghost before = json_view(*config);
    let Some(member) = member_mut(config, "dht") else {
        return Err(BuildError::NoDhtObject);
    };
    let Some(dht) = object_mut(member) else {
        proof {
            let entries = before->Object_0;
            assert(entries.insert("dht"@, entries["dht"@]) =~= entries);
        }
        return Err(BuildError::NoDhtObject);
    };
    if !has_entry(dht, "@type") {
        put_entry(dht, "@type".to_owned(), text_value("dht.config.global".to_owned()));
    }
    let Some(member) = entry_mut(dht, "static_nodes") else {
        return Err(BuildError::NoStaticNodesObject);
    };
    let Some(static_nodes) = object_mut(member) else {
        proof {
            let entries = typed_dht(before)->0;
            assert(entries.insert("static_nodes"@, entries["static_nodes"@]) =~= entries);
        }
        return Err(BuildError::NoStaticNodesObject);
    };
    if !has_entry(static_nodes, "@type") {
        put_entry(static_nodes, "@type".to_owned(), text_value("dht.nodes".to_owned()));
    }
    put_entry(static_nodes, "nodes".to_owned(), list_value(nodes));
    Ok(())
}

/// Two objects agree on the member `key`: both have it, with one value, or neither has it.
pub open spec fn same_member(
    a: Map<Seq<char>, Json>,
    b: Map<Seq<char>, Json>,
    key: Seq<char>,
) -> bool {
    a.dom().contains(key) == b.dom().contains(key) && (a.dom().contains(key) ==> a[key] == b[key])
}

/// The names of the members that matter here are different names.
proof fn lemma_names_differ()
    ensures
        "@type"@ != "static_nodes"@,
        "@type"@ != "nodes"@,
{
    reveal_strlit("@type");
    reveal_strlit("static_nodes");
    reveal_strlit("nodes");
    assert("@type"@.len() == 5);
    assert("nodes"@[0] == 'n');
    assert("@type"@[0] == '@');
}

/// Replacing the static nodes keeps every member of the configuration outside `dht`, every
/// member of `dht` but `static_nodes`, every member of `static_nodes` but `nodes`, and the types
/// that are there.
pub proof fn law_replacement_keeps_all_else(config: Json, nodes: Seq<Json>)
    requires
        typed_static_nodes(config) is Some,
    ensures
        config is Object,
        with_nodes(config, nodes) is Object,
        forall|key: Seq<char>| #![auto]
            key != "dht"@ ==> same_member(
                config->Object_0,
                with_nodes(config, nodes)->Object_0,
                key,
            ),
        ({
            let old_dht = object_member(config, "dht"@);
            let new_dht = object_member(with_nodes(config, nodes), "dht"@);
            &&& old_dht is Some
            &&& new_dht is Some
            &&& forall|key: Seq<char>| #![auto]
                key != "@type"@ && key != "static_nodes"@ ==> same_member(
                    old_dht->0,
                    new_dht->0,
                    key,
                )
            &&& old_dht->0.dom().contains("@type"@) ==> same_member(
                old_dht->0,
                new_dht->0,
                "@type"@,
            )
            &&& ({
                let old_list = object_member(Json::Object(old_dht->0), "static_nodes"@);
                let new_list = object_member(Json::Object(new_dht->0), "static_nodes"@);
                &&& old_list is Some
                &&& new_list is Some
                &&& forall|key: Seq<char>| #![auto]
                    key != "@type"@ && key != "nodes"@ ==> same_member(
                        old_list->0,
                        new_list->0,
                        key,
                    )
                &&& old_list->0.dom().contains("@type"@) ==> same_member(
                    old_list->0,
                    new_list->0,
                    "@type"@,
                )
            })
        }),
{
    lemma_names_differ();
}

/// After a replacement the static nodes are the new ones, and the objects around them have a
/// type.
pub proof fn law_replacement_sets_nodes(config: Json, nodes: Seq<Json>)
    requires
        typed_static_nodes(config) is Some,
    ensures
        ({
            let dht = object_member(with_nodes(config, nodes), "dht"@);
            let list = object_member(Json::Object(dht->0), "static_nodes"@);
            &&& dht is Some
            &&& dht->0.dom().contains("@type"@)
            &&& list is Some
            &&& list->0.dom().contains("@type"@)
            &&& list->0.dom().contains("nodes"@)
            &&& list->0["nodes"@] == Json::List(nodes)
        }),
{
    lemma_names_differ();
}

/// The static nodes of a configuration can be replaced exactly if it is an object whose `dht` is an
/// object whose `static_nodes` is an object. A `dht` object is enough for the first step.
pub proof fn law_replacement_needs_the_objects(config: Json)
    ensures
        ({
            let dht = config->Object_0["dht"@];
            let has_dht = config is Object && config->Object_0.dom().contains("dht"@)
                && dht is Object;
            &&& typed_dht(config) is Some <==> has_dht
            &&& typed_static_nodes(config) is Some <==> {
                &&& has_dht
                &&& dht->Object_0.dom().contains("static_nodes"@)
                &&& dht->Object_0["static_nodes"@] is Object
            }
        }),
{
    lemma_names_differ();
}

/// Where the objects around the static nodes have no type, a replacement gives them theirs.
pub proof fn law_replacement_adds_missing_types(config: Json, nodes: Seq<Json>)
    requires
        typed_static_nodes(config) is Some,
    ensures
        ({
            let old_dht = object_member(config, "dht"@)->0;
            let new_dht = object_member(with_nodes(config, nodes), "dht"@)->0;
            let old_list = object_member(Json::Object(old_dht), "static_nodes"@)->0;
            let new_list = object_member(Json::Object(new_dht), "static_nodes"@)->0;
            &&& !old_dht.dom().contains("@type"@) ==> new_dht["@type"@] == Json::Text(
                "dht.config.global"@,
            )
            &&& !old_list.dom().contains("@type"@) ==> new_list["@type"@] == Json::Text(
                "dht.nodes"@,
            )
        }),
{
    lemma_names_differ();
}

/// The last replacement wins: what an earlier one wrote leaves no trace, and a configuration whose
/// nodes were replaced can have them replaced again.
pub proof fn law_last_replacement_wins(config: Json, first: Seq<Json>, second: Seq<Json>)
    requires
        typed_static_nodes(config) is Some,
    ensures
        typed_static_nodes(with_nodes(config, first)) is Some,
        with_nodes(with_nodes(config, first), second) == with_nodes(config, second),
{
    lemma_names_differ();
    let once = with_nodes(config, first);
    let list = typed_static_nodes(config)->0;
    let dht = typed_dht(config)->0;
    assert(typed_static_nodes(once)->0 == list.insert("nodes"@, Json::List(first)));
    assert(list.insert("nodes"@, Json::List(first)).insert("nodes"@, Json::List(second))
        =~= list.insert("nodes"@, Json::List(second)));
    let inner = |nodes: Seq<Json>| Json::Object(list.insert("nodes"@, Json::List(nodes)));
    assert(typed_dht(once)->0 == dht.insert("static_nodes"@, inner(first)));
    assert(dht.insert("static_nodes"@, inner(first)).insert("static_nodes"@, inner(second))
        =~= dht.insert("static_nodes"@, inner(second)));
    let outer = |nodes: Seq<Json>| Json::Object(dht.insert("static_nodes"@, inner(nodes)));
    let entries = config->Object_0;
    assert(entries.insert("dht"@, outer(first)).insert("dht"@, outer(second)) =~= entries.insert(
        "dht"@,
        outer(second),
    ));
}

} // verus!
