//! The seed configuration: its static DHT nodes, and which of them are complete.

use crate::error::{BuildError, ErrorView};
use crate::node::{
    law_low_bits_keep_the_remainder, low_bits, truncate_ip, Address, AddressList, AddressListView,
    DhtNode, DhtNodeView, PublicKey, PublicKeyView,
};
use crate::text::same_text;
use vstd::prelude::*;
use vstd::string::*;

verus! {

/// The part of a global configuration that is read.
#[derive(Debug, Default)]
pub struct TonNodeGlobalConfigJson {
    pub dht: DhtGlobalConfig,
}

#[derive(Debug, Default)]
pub struct DhtGlobalConfig {
    pub static_nodes: DhtNodes,
}

#[derive(Debug, Default)]
pub struct DhtNodes {
    pub nodes: Vec<ConfigDhtNode>,
}

/// A node as a configuration has it.
#[derive(Debug, Default)]
pub struct ConfigDhtNode {
    pub id: ConfigDhtNodeId,
    pub addr_list: ConfigAddressList,
    pub version: Option<i32>,
    /// The signature, decoded from base64, or else what the decoder says.
    pub signature: Option<Result<Vec<u8>, String>>,
}

/// The key of a node as a configuration has it.
#[derive(Debug, Default)]
pub struct ConfigDhtNodeId {
    pub type_node: Option<String>,
    /// The key, decoded from base64, or else what the decoder says.
    pub key: Option<Result<Vec<u8>, String>>,
}

#[derive(Debug, Default)]
pub struct ConfigAddressList {
    pub addrs: Vec<ConfigAddress>,
    pub version: Option<i32>,
    pub reinit_date: Option<i32>,
    pub priority: Option<i32>,
    pub expire_at: Option<i32>,
}

#[derive(Debug, Default)]
pub struct ConfigAddress {
    pub type_node: Option<String>,
    pub ip: Option<i64>,
    pub port: Option<i32>,
}

impl ConfigAddress {
    /// An address without a type is a UDP address.
    pub open spec fn has_udp_type(self) -> bool {
        self.type_node is None || self.type_node->0@ == "adnl.address.udp"@
    }

    /// The address, where it is a complete UDP address.
    pub open spec fn reading(self) -> Option<Address> {
        if self.has_udp_type() && self.ip is Some && self.port is Some {
            Some(Address::Udp { ip: low_bits(self.ip->0) as i32, port: self.port->0 })
        } else {
            None
        }
    }

    /// Whether this is a UDP address.
    pub fn is_udp(&self) -> (r: bool)
        ensures
            r == self.has_udp_type(),
    {
        match &self.type_node {
            Some(kind) => same_text(kind.as_str(), "adnl.address.udp"),
            None => true,
        }
    }
}

impl ConfigAddressList {
    /// The complete UDP addresses of the list, in order.
    pub open spec fn udp_readings(self) -> Seq<Address> {
        address_readings(self.addrs@)
    }

    fn udp_addresses(&self) -> (r: Vec<Address>)
        ensures
            r@ == self.udp_readings(),
    {
        let mut r: Vec<Address> = Vec::new();
        let mut i: usize = 0;
        while i < self.addrs.len()
            invariant
                i <= self.addrs@.len(),
                r@ == address_readings(self.addrs@.take(i as int)),
            decreases self.addrs@.len() - i,
        {
            let addr = &self.addrs[i];
            proof {
                assert(self.addrs@.take(i + 1).drop_last() =~= self.addrs@.take(i as int));
            }
            if addr.is_udp() {
                if let Some(ip) = addr.ip {
                    if let Some(port) = addr.port {
                        r.push(Address::Udp { ip: truncate_ip(ip), port });
                    }
                }
            }
            i = i + 1;
        }
        assert(self.addrs@.take(i as int) =~= self.addrs@);
        r
    }
}

/// The complete UDP addresses among `addrs`, in order.
pub open spec fn address_readings(addrs: Seq<ConfigAddress>) -> Seq<Address>
    decreases addrs.len(),
{
    if addrs.len() == 0 {
        seq![]
    } else {
        match addrs.last().reading() {
            Some(address) => address_readings(addrs.drop_last()).push(address),
            None => address_readings(addrs.drop_last()),
        }
    }
}

impl ConfigDhtNodeId {
    /// The 32 bytes of the key, or what is wrong with it.
    pub open spec fn reading(self) -> Result<Seq<u8>, ErrorView> {
        match self.type_node {
            None => Err(ErrorView::KeyTypeMissing),
            Some(kind) => if kind@ != "pub.ed25519"@ {
                Err(ErrorView::UnsupportedKeyType(kind@))
            } else {
                match self.key {
                    None => Err(ErrorView::KeyMissing),
                    Some(Err(reason)) => Err(ErrorView::InvalidBase64(reason@)),
                    Some(Ok(bytes)) => if bytes@.len() < 32 {
                        Err(ErrorView::KeyTooShort)
                    } else {
                        Ok(bytes@.take(32))
                    },
                }
            },
        }
    }

    /// The key: the first 32 bytes of what the configuration holds.
    pub fn convert_key(&self) -> (r: Result<[u8; 32], BuildError>)
        ensures
            match r {
                Ok(key) => self.reading() == Ok::<Seq<u8>, ErrorView>(key@),
                Err(error) => self.reading() == Err::<Seq<u8>, ErrorView>(error@),
            },
    {
        let Some(type_node) = &self.type_node else {
            return Err(BuildError::KeyTypeMissing);
        };
        if !same_text(type_node.as_str(), "pub.ed25519") {
            return Err(BuildError::UnsupportedKeyType(type_node.clone()));
        }
        match &self.key {
            None => Err(BuildError::KeyMissing),
            Some(Err(reason)) => Err(BuildError::InvalidBase64(reason.clone())),
            Some(Ok(bytes)) => {
                if bytes.len() < 32 {
                    return Err(BuildError::KeyTooShort);
                }
                let mut key: [u8; 32] = [0u8; 32];
                let mut i: usize = 0;
                while i < 32
                    invariant
                        i <= 32,
                        32 <= bytes@.len(),
                        key@.len() == 32,
                        forall|j: int| 0 <= j < i ==> key@[j] == bytes@[j],
                    decreases 32 - i,
                {
                    key[i] = bytes[i];
                    i = i + 1;
                }
                assert(key@ =~= bytes@.take(32));
                Ok(key)
            },
        }
    }
}

impl ConfigDhtNode {
    /// Whether the node has all that a signed node has, besides its key.
    pub open spec fn complete(self) -> bool {
        &&& self.addr_list.version is Some
        &&& self.addr_list.reinit_date is Some
        &&& self.addr_list.priority is Some
        &&& self.addr_list.expire_at is Some
        &&& self.version is Some
        &&& self.signature is Some
    }

    /// The node, `None` where it is not complete, or what is wrong with it.
    pub open spec fn reading(self) -> Result<Option<DhtNodeView>, ErrorView> {
        match self.id.reading() {
            Err(error) => Err(error),
            Ok(key) => if !self.complete() {
                Ok(None)
            } else {
                match self.signature->0 {
                    Err(reason) => Err(ErrorView::InvalidBase64(reason@)),
                    Ok(signature) => Ok(
                        Some(
                            DhtNodeView {
                                id: PublicKeyView::Ed25519(key),
                                addr_list: AddressListView {
                                    addrs: self.addr_list.udp_readings(),
                                    version: self.addr_list.version->0,
                                    reinit_date: self.addr_list.reinit_date->0,
                                    priority: self.addr_list.priority->0,
                                    expire_at: self.addr_list.expire_at->0,
                                },
                                version: self.version->0,
                                signature: signature@,
                            },
                        ),
                    ),
                }
            },
        }
    }

    /// Reads one node of the configuration. One that lacks a part is passed over; a key or a
    /// signature that cannot be read is an error.
    pub fn read(&self) -> (r: Result<Option<DhtNode>, BuildError>)
        ensures
            match r {
                Ok(Some(node)) => self.reading() == Ok::<Option<DhtNodeView>, ErrorView>(
                    Some(node@),
                ),
                Ok(None) => self.reading() == Ok::<Option<DhtNodeView>, ErrorView>(None),
                Err(error) => self.reading() == Err::<Option<DhtNodeView>, ErrorView>(error@),
            },
    {
        let key: [u8; 32] = match self.id.convert_key() {
            Ok(key) => key,
            Err(error) => {
                return Err(error);
            },
        };
        let addrs = self.addr_list.udp_addresses();
        let Some(version) = self.addr_list.version else {
            return Ok(None);
        };
        let Some(reinit_date) = self.addr_list.reinit_date else {
            return Ok(None);
        };
        let Some(priority) = self.addr_list.priority else {
            return Ok(None);
        };
        let Some(expire_at) = self.addr_list.expire_at else {
            return Ok(None);
        };
        let Some(node_version) = self.version else {
            return Ok(None);
        };
        let Some(decoded) = &self.signature else {
            return Ok(None);
        };
        match decoded {
            Ok(signature) => {
                let copy = signature.clone();
                assert(copy@ =~= signature@);
                Ok(
                    Some(
                        DhtNode {
                            id: PublicKey::Ed25519(key),
                            addr_list: AddressList {
                                addrs,
                                version,
                                reinit_date,
                                priority,
                                expire_at,
                            },
                            version: node_version,
                            signature: copy,
                        },
                    ),
                )
            },
            Err(reason) => Err(BuildError::InvalidBase64(reason.clone())),
        }
    }
}

/// The complete nodes among `nodes`, in order, or what is wrong with the first that cannot be
/// read.
pub open spec fn node_readings(nodes: Seq<ConfigDhtNode>) -> Result<Seq<DhtNodeView>, ErrorView>
    decreases nodes.len(),
{
    if nodes.len() == 0 {
        Ok(seq![])
    } else {
        match node_readings(nodes.drop_last()) {
            Err(error) => Err(error),
            Ok(list) => match nodes.last().reading() {
                Err(error) => Err(error),
                Ok(None) => Ok(list),
                Ok(Some(node)) => Ok(list.push(node)),
            },
        }
    }
}

/// The complete nodes among `nodes`, of which there has to be one, or what is wrong.
pub open spec fn seed_readings(nodes: Seq<ConfigDhtNode>) -> Result<Seq<DhtNodeView>, ErrorView> {
    match node_readings(nodes) {
        Err(wrong) => Err(wrong),
        Ok(list) => if list.len() == 0 {
            Err(ErrorView::NoSeedNodes)
        } else {
            Ok(list)
        },
    }
}

/// What the nodes of a list hold.
pub open spec fn node_views(nodes: Seq<DhtNode>) -> Seq<DhtNodeView> {
    nodes.map_values(|node: DhtNode| node@)
}

/// What cannot be read in a list cannot be read in a longer one either.
proof fn lemma_error_persists(nodes: Seq<ConfigDhtNode>, i: int)
    requires
        0 <= i <= nodes.len(),
        node_readings(nodes.take(i)) is Err,
    ensures
        node_readings(nodes) == node_readings(nodes.take(i)),
    decreases nodes.len() - i,
{
    if i < nodes.len() {
        assert(nodes.take(i + 1).drop_last() =~= nodes.take(i));
        lemma_error_persists(nodes, i + 1);
    } else {
        assert(nodes.take(i) =~= nodes);
    }
}

impl TonNodeGlobalConfigJson {
    /// The complete static nodes of the configuration.
    pub fn get_dht_nodes_configs(&self) -> (r: Result<Vec<DhtNode>, BuildError>)
        ensures
            match r {
                Ok(nodes) => node_readings(self.dht.static_nodes.nodes@) == Ok::<
                    Seq<DhtNodeView>,
                    ErrorView,
                >(node_views(nodes@)),
                Err(error) => node_readings(self.dht.static_nodes.nodes@) == Err::<
                    Seq<DhtNodeView>,
                    ErrorView,
                >(error@),
            },
    {
        let nodes = &self.dht.static_nodes.nodes;
        let mut r: Vec<DhtNode> = Vec::new();
        let mut i: usize = 0;
        assert(node_views(r@) =~= seq![]);
        while i < nodes.len()
            invariant
                i <= nodes@.len(),
                nodes@ == self.dht.static_nodes.nodes@,
                node_readings(nodes@.take(i as int)) == Ok::<Seq<DhtNodeView>, ErrorView>(
                    node_views(r@),
                ),
            decreases nodes@.len() - i,
        {
            let ghost before = r@;
            proof {
                assert(nodes@.take(i + 1).drop_last() =~= nodes@.take(i as int));
            }
            match nodes[i].read() {
                Ok(Some(node)) => {
                    r.push(node);
                    assert(node_views(r@) =~= node_views(before).push(node@));
                },
                Ok(None) => {},
                Err(error) => {
                    proof {
                        lemma_error_persists(nodes@, i + 1);
                    }
                    return Err(error);
                },
            }
            i = i + 1;
        }
        assert(nodes@.take(i as int) =~= nodes@);
        Ok(r)
    }

    /// The static nodes to start from: the complete ones, of which there has to be one.
    pub fn seed_nodes(&self) -> (r: Result<Vec<DhtNode>, BuildError>)
        ensures
            match seed_readings(self.dht.static_nodes.nodes@) {
                Err(wrong) => r matches Err(error) && error@ == wrong,
                Ok(list) => r matches Ok(nodes) && node_views(nodes@) == list,
            },
    {
        match self.get_dht_nodes_configs() {
            Err(error) => Err(error),
            Ok(nodes) => {
                assert(node_views(nodes@).len() == nodes@.len());
                if nodes.len() == 0 {
                    Err(BuildError::NoSeedNodes)
                } else {
                    Ok(nodes)
                }
            },
        }
    }
}

proof fn lemma_readings_are_udp(addrs: Seq<ConfigAddress>, j: int)
    requires
        0 <= j < address_readings(addrs).len(),
    ensures
        address_readings(addrs)[j] is Udp,
    decreases addrs.len(),
{
    if addrs.len() > 0 && j < address_readings(addrs.drop_last()).len() {
        lemma_readings_are_udp(addrs.drop_last(), j);
    }
}

/// A node that was read has an Ed25519 key of 32 bytes, and addresses that are all UDP.
pub proof fn law_read_nodes_are_usable(nodes: Seq<ConfigDhtNode>, i: int)
    requires
        node_readings(nodes) is Ok,
        0 <= i < node_readings(nodes)->Ok_0.len(),
    ensures
        ({
            let node = node_readings(nodes)->Ok_0[i];
            &&& node.id is Ed25519
            &&& node.id->Ed25519_0.len() == 32
            &&& forall|j: int|
                0 <= j < node.addr_list.addrs.len() ==> #[trigger] node.addr_list.addrs[j] is Udp
        }),
    decreases nodes.len(),
{
    if nodes.len() > 0 {
        let rest = node_readings(nodes.drop_last())->Ok_0;
        if i < rest.len() {
            law_read_nodes_are_usable(nodes.drop_last(), i);
        } else {
            let node = node_readings(nodes)->Ok_0[i];
            assert forall|j: int| 0 <= j < node.addr_list.addrs.len() implies #[trigger]
            node.addr_list.addrs[j] is Udp by {
                lemma_readings_are_udp(nodes.last().addr_list.addrs@, j);
            }
        }
    }
}

/// A single address is read exactly if its type is UDP or missing and it has an IP and a port: as
/// a UDP address with that port, whose number differs from the IP by a multiple of 2^32. The
/// addresses of two lists are those of the first and then those of the second.
pub proof fn law_addresses_are_read_one_by_one(
    address: ConfigAddress,
    addrs: Seq<ConfigAddress>,
    more: Seq<ConfigAddress>,
)
    ensures
        ({
            let one = address_readings(seq![address]);
            let udp = address.type_node is None || address.type_node->0@ == "adnl.address.udp"@;
            &&& one.len() == if udp && address.ip is Some && address.port is Some {
                1nat
            } else {
                0
            }
            &&& one.len() == 1 ==> {
                &&& one[0] is Udp
                &&& one[0]->port == address.port->0
                &&& (one[0]->ip - address.ip->0) % 0x1_0000_0000 == 0
            }
        }),
        address_readings(addrs + more) == address_readings(addrs) + address_readings(more),
    decreases more.len(),
{
    reveal_with_fuel(address_readings, 2);
    assert(seq![address].drop_last() =~= seq![]);
    if address.ip is Some {
        law_low_bits_keep_the_remainder(address.ip->0);
    }
    if more.len() == 0 {
        assert(addrs + more =~= addrs);
        assert(address_readings(addrs) + address_readings(more) =~= address_readings(addrs));
    } else {
        law_addresses_are_read_one_by_one(address, addrs, more.drop_last());
        assert((addrs + more).drop_last() =~= addrs + more.drop_last());
        assert((addrs + more).last() == more.last());
        assert(address_readings(addrs + more) =~= address_readings(addrs) + address_readings(
            more,
        ));
    }
}

/// A key is read exactly if its type is Ed25519 and its text decodes to 32 bytes or more: as the
/// first 32 of them. Else what is wrong comes in the order type, kind of type, text, decoding,
/// length.
pub proof fn law_key_is_the_first_bytes(id: ConfigDhtNodeId)
    ensures
        ({
            let typed = id.type_node is Some && id.type_node->0@ == "pub.ed25519"@;
            let decoded = id.key is Some && id.key->0 is Ok;
            let r = id.reading();
            &&& r is Ok <==> typed && decoded && (id.key->0->Ok_0)@.len() >= 32
            &&& r is Ok ==> {
                &&& r->Ok_0.len() == 32
                &&& forall|i: int|
                    0 <= i < 32 ==> #[trigger] r->Ok_0[i] == (id.key->0->Ok_0)@[i]
            }
            &&& id.type_node is None <==> r == Err::<Seq<u8>, ErrorView>(
                ErrorView::KeyTypeMissing,
            )
            &&& id.type_node is Some && !typed ==> r == Err::<Seq<u8>, ErrorView>(
                ErrorView::UnsupportedKeyType(id.type_node->0@),
            )
            &&& typed && id.key is None ==> r == Err::<Seq<u8>, ErrorView>(ErrorView::KeyMissing)
            &&& typed && id.key is Some && !decoded ==> r == Err::<Seq<u8>, ErrorView>(
                ErrorView::InvalidBase64((id.key->0->Err_0)@),
            )
            &&& typed && decoded && (id.key->0->Ok_0)@.len() < 32 ==> r == Err::<
                Seq<u8>,
                ErrorView,
            >(ErrorView::KeyTooShort)
        }),
{
}

/// A node is read with each of its fields as the configuration has it. It is passed over where its
/// key can be read and it lacks one of the others; and it is an error where the key cannot be read,
/// or where nothing lacks and the signature cannot be decoded.
pub proof fn law_node_is_read_field_by_field(entry: ConfigDhtNode)
    ensures
        ({
            let r = entry.reading();
            let list = entry.addr_list;
            let lacks = list.version is None || list.reinit_date is None || list.priority is None
                || list.expire_at is None || entry.version is None || entry.signature is None;
            let node = r->Ok_0->0;
            &&& entry.id.reading() is Err ==> r == Err::<Option<DhtNodeView>, ErrorView>(
                entry.id.reading()->Err_0,
            )
            &&& r == Ok::<Option<DhtNodeView>, ErrorView>(None) <==> entry.id.reading() is Ok
                && lacks
            &&& entry.id.reading() is Ok && !lacks && entry.signature->0 is Err ==> r == Err::<
                Option<DhtNodeView>,
                ErrorView,
            >(ErrorView::InvalidBase64((entry.signature->0->Err_0)@))
            &&& r is Ok && r->Ok_0 is Some <==> {
                &&& entry.id.reading() is Ok
                &&& !lacks
                &&& entry.signature->0 is Ok
            }
            &&& r is Ok && r->Ok_0 is Some ==> {
                &&& node.id == PublicKeyView::Ed25519(entry.id.reading()->Ok_0)
                &&& node.signature == (entry.signature->0->Ok_0)@
                &&& node.version == entry.version->0
                &&& node.addr_list.version == list.version->0
                &&& node.addr_list.reinit_date == list.reinit_date->0
                &&& node.addr_list.priority == list.priority->0
                &&& node.addr_list.expire_at == list.expire_at->0
                &&& node.addr_list.addrs == address_readings(list.addrs@)
            }
        }),
{
}

/// The nodes of two lists are those of the first and then those of the second, unless one cannot be
/// read: then it is the first such. A single node gives itself, or nothing where it is passed over.
pub proof fn law_nodes_are_read_one_by_one(
    entry: ConfigDhtNode,
    nodes: Seq<ConfigDhtNode>,
    more: Seq<ConfigDhtNode>,
)
    ensures
        node_readings(seq![entry]) == match entry.reading() {
            Ok(Some(node)) => Ok::<Seq<DhtNodeView>, ErrorView>(seq![node]),
            Ok(None) => Ok::<Seq<DhtNodeView>, ErrorView>(seq![]),
            Err(error) => Err::<Seq<DhtNodeView>, ErrorView>(error),
        },
        node_readings(nodes + more) == match (node_readings(nodes), node_readings(more)) {
            (Ok(first), Ok(second)) => Ok::<Seq<DhtNodeView>, ErrorView>(first + second),
            (Ok(_), Err(error)) => Err::<Seq<DhtNodeView>, ErrorView>(error),
            (Err(error), _) => Err::<Seq<DhtNodeView>, ErrorView>(error),
        },
    decreases more.len(),
{
    reveal_with_fuel(node_readings, 2);
    assert(seq![entry].drop_last() =~= seq![]);
    if entry.reading() is Ok && entry.reading()->Ok_0 is Some {
        let node = entry.reading()->Ok_0->0;
        assert(Seq::<DhtNodeView>::empty().push(node) =~= seq![node]);
    }
    if more.len() == 0 {
        assert(nodes + more =~= nodes);
        if let Ok(first) = node_readings(nodes) {
            assert(first + Seq::<DhtNodeView>::empty() =~= first);
        }
    } else {
        law_nodes_are_read_one_by_one(entry, nodes, more.drop_last());
        assert((nodes + more).drop_last() =~= nodes + more.drop_last());
        assert((nodes + more).last() == more.last());
        if let (Ok(first), Ok(second)) = (node_readings(nodes), node_readings(more.drop_last())) {
            if let Ok(Some(node)) = more.last().reading() {
                assert((first + second).push(node) =~= first + second.push(node));
            }
        }
    }
}

/// One complete node is enough to start from, wherever it stands, provided that none of the others
/// is an error; and where all are passed over there is nothing to start from.
pub proof fn law_one_complete_node_is_enough(nodes: Seq<ConfigDhtNode>, i: int)
    requires
        forall|j: int| 0 <= j < nodes.len() ==> (#[trigger] nodes[j]).reading() is Ok,
    ensures
        node_readings(nodes) is Ok,
        0 <= i < nodes.len() && nodes[i].reading()->Ok_0 is Some ==> seed_readings(nodes) is Ok
            && seed_readings(nodes) == node_readings(nodes) && seed_readings(
            nodes,
        )->Ok_0.contains(nodes[i].reading()->Ok_0->0),
        (forall|j: int|
            0 <= j < nodes.len() ==> (#[trigger] nodes[j]).reading()->Ok_0 is None)
            ==> seed_readings(nodes) == Err::<Seq<DhtNodeView>, ErrorView>(
            ErrorView::NoSeedNodes,
        ),
    decreases nodes.len(),
{
    if nodes.len() > 0 {
        let rest = nodes.drop_last();
        assert forall|j: int| 0 <= j < rest.len() implies (#[trigger] rest[j]).reading() is Ok by {
            assert(nodes[j].reading() is Ok);
        }
        law_one_complete_node_is_enough(rest, i);
        assert(nodes[nodes.len() - 1].reading() is Ok);
        let before = node_readings(rest)->Ok_0;
        let list = node_readings(nodes)->Ok_0;
        if 0 <= i < nodes.len() && nodes[i].reading()->Ok_0 is Some {
            let node = nodes[i].reading()->Ok_0->0;
            if i < rest.len() {
                let k = choose|k: int| 0 <= k < before.len() && before[k] == node;
                assert(list[k] == node);
            } else {
                assert(list[before.len() as int] == node);
            }
        }
        if forall|j: int|
            0 <= j < nodes.len() ==> (#[trigger] nodes[j]).reading()->Ok_0 is None {
            assert forall|j: int| 0 <= j < rest.len() implies (
            #[trigger] rest[j]).reading()->Ok_0 is None by {
                assert(nodes[j].reading()->Ok_0 is None);
            }
            assert(nodes[nodes.len() - 1].reading()->Ok_0 is None);
        }
    }
}

} // verus!
