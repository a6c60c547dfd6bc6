//! What is written can be read: the entry of a node in the output is a complete seed node.

use crate::error::ErrorView;
use crate::json::Json;
use crate::node::{udp_addresses, Address, AddressListView, DhtNodeView, PublicKeyView};
use crate::output::{address_json, addresses_json, node_json, udp_json};
use crate::seed::{
    address_readings, node_readings, ConfigAddress, ConfigAddressList, ConfigDhtNode,
};
use vstd::prelude::*;

verus! {

/// A member of an object, if it has one of that name.
pub open spec fn member(json: Json, key: Seq<char>) -> Option<Json> {
    match json {
        Json::Object(entries) => if entries.dom().contains(key) {
            Some(entries[key])
        } else {
            None
        },
        _ => None,
    }
}

/// A field holds the text of a member.
pub open spec fn text_field(json: Json, key: Seq<char>, field: Option<String>) -> bool {
    match member(json, key) {
        Some(Json::Text(text)) => field is Some && field->0@ == text,
        _ => field is None,
    }
}

/// A field holds the number of a member.
pub open spec fn int_field(json: Json, key: Seq<char>, field: Option<i32>) -> bool {
    match member(json, key) {
        Some(Json::Int(number)) => field is Some && field->0 == number,
        _ => field is None,
    }
}

/// A wide field holds the number of a member.
pub open spec fn wide_field(json: Json, key: Seq<char>, field: Option<i64>) -> bool {
    match member(json, key) {
        Some(Json::Int(number)) => field is Some && field->0 == number,
        _ => field is None,
    }
}

/// A field holds what a decoder makes of the text of a member.
pub open spec fn decoded_field(
    json: Json,
    key: Seq<char>,
    decode: spec_fn(Seq<char>) -> Option<Seq<u8>>,
    field: Option<Result<Vec<u8>, String>>,
) -> bool {
    match member(json, key) {
        Some(Json::Text(text)) => {
            &&& field is Some
            &&& match decode(text) {
                Some(bytes) => field->0 matches Ok(held) && held@ == bytes,
                None => field->0 is Err,
            }
        },
        _ => field is None,
    }
}

/// An address of a configuration holds the fields of its JSON.
pub open spec fn address_holds(json: Json, address: ConfigAddress) -> bool {
    &&& text_field(json, "@type"@, address.type_node)
    &&& wide_field(json, "ip"@, address.ip)
    &&& int_field(json, "port"@, address.port)
}

/// A list of addresses of a configuration holds the fields of its JSON.
pub open spec fn list_holds(json: Json, list: ConfigAddressList) -> bool {
    &&& int_field(json, "version"@, list.version)
    &&& int_field(json, "reinit_date"@, list.reinit_date)
    &&& int_field(json, "priority"@, list.priority)
    &&& int_field(json, "expire_at"@, list.expire_at)
    &&& member(json, "addrs"@) matches Some(Json::List(items))
    &&& list.addrs@.len() == items.len()
    &&& forall|i: int| 0 <= i < items.len() ==> address_holds(items[i], #[trigger] list.addrs@[i])
}

/// A node of a configuration holds the fields of its JSON, read by their names, with the texts in
/// base64 put through a decoder.
pub open spec fn node_holds(
    json: Json,
    decode: spec_fn(Seq<char>) -> Option<Seq<u8>>,
    node: ConfigDhtNode,
) -> bool {
    &&& member(json, "id"@) matches Some(id)
    &&& text_field(id, "@type"@, node.id.type_node)
    &&& decoded_field(id, "key"@, decode, node.id.key)
    &&& member(json, "addr_list"@) matches Some(list)
    &&& list_holds(list, node.addr_list)
    &&& int_field(json, "version"@, node.version)
    &&& decoded_field(json, "signature"@, decode, node.signature)
}

/// The names of the members of a node are different names.
proof fn lemma_member_names()
    ensures
        "@type"@.len() == 5,
        "id"@.len() == 2,
        "key"@.len() == 3,
        "addr_list"@.len() == 9,
        "addrs"@.len() == 5,
        "version"@.len() == 7,
        "reinit_date"@.len() == 11,
        "priority"@.len() == 8,
        "expire_at"@.len() == 9,
        "signature"@.len() == 9,
        "ip"@.len() == 2,
        "port"@.len() == 4,
        "@type"@[0] == '@',
        "addrs"@[0] == 'a',
        "addr_list"@[0] == 'a',
        "expire_at"@[0] == 'e',
        "signature"@[0] == 's',
{
    reveal_strlit("@type");
    reveal_strlit("id");
    reveal_strlit("key");
    reveal_strlit("addr_list");
    reveal_strlit("addrs");
    reveal_strlit("version");
    reveal_strlit("reinit_date");
    reveal_strlit("priority");
    reveal_strlit("expire_at");
    reveal_strlit("signature");
    reveal_strlit("ip");
    reveal_strlit("port");
}

proof fn lemma_address_reads_back(ip: i32, port: i32, address: ConfigAddress)
    requires
        address_holds(udp_json(ip, port), address),
    ensures
        address.reading() == Some(Address::Udp { ip, port }),
{
    lemma_member_names();
    let json = udp_json(ip, port);
    assert(member(json, "@type"@) == Some(Json::Text("adnl.address.udp"@)));
    assert(member(json, "ip"@) == Some(Json::Int(ip as int)));
    assert(member(json, "port"@) == Some(Json::Int(port as int)));
}

proof fn lemma_addresses_read_back(addrs: Seq<ConfigAddress>, readings: Seq<Address>)
    requires
        addrs.len() == readings.len(),
        forall|i: int|
            0 <= i < addrs.len() ==> (#[trigger] addrs[i]).reading() == Some(readings[i]),
    ensures
        address_readings(addrs) == readings,
    decreases addrs.len(),
{
    if addrs.len() > 0 {
        lemma_addresses_read_back(addrs.drop_last(), readings.drop_last());
        assert(addrs.last().reading() == Some(readings[addrs.len() - 1]));
        assert(readings =~= readings.drop_last().push(readings.last()));
    } else {
        assert(readings =~= seq![]);
    }
}

/// The JSON of a node has each of its fields under its own name, and its UDP addresses, each with
/// its number and its port.
pub proof fn law_written_node_has_its_fields(
    node: DhtNodeView,
    public_key: Seq<char>,
    signature: Seq<char>,
)
    ensures
        ({
            let json = node_json(node, public_key, signature);
            let id = member(json, "id"@)->0;
            let list = member(json, "addr_list"@)->0;
            &&& member(json, "@type"@) == Some(Json::Text("dht.node"@))
            &&& member(json, "id"@) is Some
            &&& member(id, "@type"@) == Some(Json::Text("pub.ed25519"@))
            &&& member(id, "key"@) == Some(Json::Text(public_key))
            &&& member(json, "addr_list"@) is Some
            &&& member(list, "@type"@) == Some(Json::Text("adnl.addressList"@))
            &&& member(list, "version"@) == Some(Json::Int(node.addr_list.version as int))
            &&& member(list, "reinit_date"@) == Some(Json::Int(node.addr_list.reinit_date as int))
            &&& member(list, "priority"@) == Some(Json::Int(node.addr_list.priority as int))
            &&& member(list, "expire_at"@) == Some(Json::Int(node.addr_list.expire_at as int))
            &&& member(list, "addrs"@) == Some(Json::List(addresses_json(node.addr_list.addrs)))
            &&& member(json, "version"@) == Some(Json::Int(node.version as int))
            &&& member(json, "signature"@) == Some(Json::Text(signature))
        }),
{
    lemma_member_names();
}

/// The JSON of a list of addresses has one item for each UDP address, in order, and none for the
/// others: those of two lists are those of the first and then those of the second.
pub proof fn law_udp_addresses_are_written_one_by_one(
    address: Address,
    addrs: Seq<Address>,
    more: Seq<Address>,
)
    ensures
        ({
            let one = addresses_json(seq![address]);
            &&& one.len() == if address is Udp {
                1nat
            } else {
                0
            }
            &&& address is Udp ==> {
                &&& member(one[0], "@type"@) == Some(Json::Text("adnl.address.udp"@))
                &&& member(one[0], "ip"@) == Some(Json::Int(address->ip as int))
                &&& member(one[0], "port"@) == Some(Json::Int(address->port as int))
            }
        }),
        addresses_json(addrs + more) == addresses_json(addrs) + addresses_json(more),
{
    lemma_member_names();
    let is_udp = |address: Address| address is Udp;
    reveal_with_fuel(Seq::filter, 2);
    assert(seq![address].drop_last() =~= seq![]);
    assert(seq![address].filter(is_udp) =~= if address is Udp {
        seq![address]
    } else {
        seq![]
    });
    Seq::filter_distributes_over_add(addrs, more, is_udp);
    assert(addresses_json(addrs + more) =~= addresses_json(addrs) + addresses_json(more));
}

/// A node without its addresses that are not UDP.
pub open spec fn with_udp_only(node: DhtNodeView) -> DhtNodeView {
    DhtNodeView {
        addr_list: AddressListView {
            addrs: udp_addresses(node.addr_list.addrs),
            ..node.addr_list
        },
        ..node
    }
}

/// A node that was written is read back as it was, but for the addresses that are not UDP: with
/// its key, its signature, and the data of its address list.
pub proof fn law_written_node_reads_back(
    node: DhtNodeView,
    public_key: Seq<char>,
    signature: Seq<char>,
    decode: spec_fn(Seq<char>) -> Option<Seq<u8>>,
    entry: ConfigDhtNode,
)
    requires
        node.id matches PublicKeyView::Ed25519(key) && key.len() == 32 && decode(public_key)
            == Some(key),
        decode(signature) == Some(node.signature),
        node_holds(node_json(node, public_key, signature), decode, entry),
    ensures
        entry.reading() == Ok::<Option<DhtNodeView>, ErrorView>(Some(with_udp_only(node))),
{
    lemma_member_names();
    let json = node_json(node, public_key, signature);
    let id = member(json, "id"@)->0;
    let list = member(json, "addr_list"@)->0;
    assert(member(id, "@type"@) == Some(Json::Text("pub.ed25519"@)));
    assert(member(id, "key"@) == Some(Json::Text(public_key)));
    assert(member(json, "version"@) == Some(Json::Int(node.version as int)));
    assert(member(json, "signature"@) == Some(Json::Text(signature)));
    assert(member(list, "version"@) == Some(Json::Int(node.addr_list.version as int)));
    assert(member(list, "reinit_date"@) == Some(Json::Int(node.addr_list.reinit_date as int)));
    assert(member(list, "priority"@) == Some(Json::Int(node.addr_list.priority as int)));
    assert(member(list, "expire_at"@) == Some(Json::Int(node.addr_list.expire_at as int)));
    let items = addresses_json(node.addr_list.addrs);
    assert(member(list, "addrs"@) == Some(Json::List(items)));
    let udp = udp_addresses(node.addr_list.addrs);
    let addrs = entry.addr_list.addrs@;
    assert forall|i: int| 0 <= i < addrs.len() implies (#[trigger] addrs[i]).reading() == Some(
        udp[i],
    ) by {
        node.addr_list.addrs.lemma_filter_pred(|address: Address| address is Udp, i);
        assert(udp[i] is Udp);
        assert(address_holds(items[i], addrs[i]));
        assert(items[i] == address_json(udp[i])->0);
        lemma_address_reads_back(udp[i]->ip, udp[i]->port, addrs[i]);
    }
    lemma_addresses_read_back(addrs, udp);
    let key = node.id->Ed25519_0;
    assert(key.take(32) =~= key);
}

/// `entries[i]` is what a reader has of the `i`th of the nodes that were written, whose key and
/// signature in base64 the decoder turns back.
pub open spec fn holds_written(
    nodes: Seq<DhtNodeView>,
    public_keys: Seq<Seq<char>>,
    signatures: Seq<Seq<char>>,
    decode: spec_fn(Seq<char>) -> Option<Seq<u8>>,
    entries: Seq<ConfigDhtNode>,
    i: int,
) -> bool {
    &&& nodes[i].id matches PublicKeyView::Ed25519(key)
    &&& key.len() == 32
    &&& decode(public_keys[i]) == Some(key)
    &&& decode(signatures[i]) == Some(nodes[i].signature)
    &&& node_holds(node_json(nodes[i], public_keys[i], signatures[i]), decode, entries[i])
}

/// A configuration whose nodes were written gives these nodes back, in order, but for the
/// addresses that are not UDP.
pub proof fn law_written_configuration_reads_back(
    nodes: Seq<DhtNodeView>,
    public_keys: Seq<Seq<char>>,
    signatures: Seq<Seq<char>>,
    decode: spec_fn(Seq<char>) -> Option<Seq<u8>>,
    entries: Seq<ConfigDhtNode>,
)
    requires
        nodes.len() == entries.len(),
        forall|i: int|
            0 <= i < nodes.len() ==> #[trigger] holds_written(
                nodes,
                public_keys,
                signatures,
                decode,
                entries,
                i,
            ),
    ensures
        node_readings(entries) == Ok::<Seq<DhtNodeView>, ErrorView>(
            nodes.map_values(|node: DhtNodeView| with_udp_only(node)),
        ),
    decreases nodes.len(),
{
    let expected = nodes.map_values(|node: DhtNodeView| with_udp_only(node));
    if nodes.len() == 0 {
        assert(expected =~= seq![]);
    } else {
        let n = nodes.len() - 1;
        let (rest, before) = (nodes.drop_last(), entries.drop_last());
        assert forall|i: int| 0 <= i < rest.len() implies #[trigger] holds_written(
            rest,
            public_keys,
            signatures,
            decode,
            before,
            i,
        ) by {
            assert(holds_written(nodes, public_keys, signatures, decode, entries, i));
        }
        law_written_configuration_reads_back(rest, public_keys, signatures, decode, before);
        assert(holds_written(nodes, public_keys, signatures, decode, entries, n));
        law_written_node_reads_back(
            nodes[n],
            public_keys[n],
            signatures[n],
            decode,
            entries[n],
        );
        assert(expected =~= rest.map_values(|node: DhtNodeView| with_udp_only(node)).push(
            with_udp_only(nodes[n]),
        ));
    }
}

} // verus!
