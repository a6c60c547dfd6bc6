//! DHT nodes: a key, the addresses it answers at, and the signature over both.

use crate::ipv4::Ipv4Addr;
use vstd::prelude::*;

verus! {

/// One address of a node. Of the kinds that are not IPv4 over UDP nothing is read.
#[derive(Clone, Copy, Debug, PartialEq, Eq, Structural)]
pub enum Address {
    /// An IPv4 address, as the signed number that holds its 32 bits, and a port.
    Udp { ip: i32, port: i32 },
    Udp6,
    Tunnel,
}

/// The public key of a node.
#[derive(Clone, Copy, Debug)]
pub enum PublicKey {
    Ed25519([u8; 32]),
    /// A key of any other kind.
    Unsupported,
}

/// What a `PublicKey` holds.
pub enum PublicKeyView {
    Ed25519(Seq<u8>),
    Unsupported,
}

impl View for PublicKey {
    type V = PublicKeyView;

    open spec fn view(&self) -> PublicKeyView {
        match self {
            PublicKey::Ed25519(key) => PublicKeyView::Ed25519(key@),
            PublicKey::Unsupported => PublicKeyView::Unsupported,
        }
    }
}

/// The addresses of a node, with the data of the list.
#[derive(Debug)]
pub struct AddressList {
    pub addrs: Vec<Address>,
    pub version: i32,
    pub reinit_date: i32,
    pub priority: i32,
    pub expire_at: i32,
}

/// What an `AddressList` holds.
pub struct AddressListView {
    pub addrs: Seq<Address>,
    pub version: i32,
    pub reinit_date: i32,
    pub priority: i32,
    pub expire_at: i32,
}

impl View for AddressList {
    type V = AddressListView;

    open spec fn view(&self) -> AddressListView {
        AddressListView {
            addrs: self.addrs@,
            version: self.version,
            reinit_date: self.reinit_date,
            priority: self.priority,
            expire_at: self.expire_at,
        }
    }
}

/// A signed DHT node.
#[derive(Debug)]
pub struct DhtNode {
    pub id: PublicKey,
    pub addr_list: AddressList,
    pub version: i32,
    pub signature: Vec<u8>,
}

/// What a `DhtNode` holds.
pub struct DhtNodeView {
    pub id: PublicKeyView,
    pub addr_list: AddressListView,
    pub version: i32,
    pub signature: Seq<u8>,
}

impl View for DhtNode {
    type V = DhtNodeView;

    open spec fn view(&self) -> DhtNodeView {
        DhtNodeView {
            id: self.id@,
            addr_list: self.addr_list@,
            version: self.version,
            signature: self.signature@,
        }
    }
}

/// Where a node is reached.
#[derive(Clone, Copy, Debug, PartialEq, Eq, Structural)]
pub struct Endpoint {
    pub ip: Ipv4Addr,
    pub port: i32,
}

/// The 32 bits of a signed number, read as an unsigned one.
pub open spec fn unsigned_bits(ip: i32) -> int {
    if ip < 0 {
        ip + 0x1_0000_0000
    } else {
        ip as int
    }
}

/// The low 32 bits of a number, read as a signed one.
pub open spec fn low_bits(ip: i64) -> int {
    let low = ip as int % 0x1_0000_0000;
    if low < 0x8000_0000 {
        low
    } else {
        low - 0x1_0000_0000
    }
}

/// The addresses of a list that are IPv4 over UDP, in order.
pub open spec fn udp_addresses(addrs: Seq<Address>) -> Seq<Address> {
    addrs.filter(|address: Address| address is Udp)
}

/// The endpoint at which a node with the addresses `addrs` is reached: its first IPv4 address
/// over UDP.
pub open spec fn endpoint_of(addrs: Seq<Address>) -> Option<Endpoint>
    decreases addrs.len(),
{
    if addrs.len() == 0 {
        None
    } else {
        match addrs[0] {
            Address::Udp { ip, port } => Some(
                Endpoint { ip: Ipv4Addr::of_bits(unsigned_bits(ip) as u32), port },
            ),
            _ => endpoint_of(addrs.drop_first()),
        }
    }
}

/// The signed number that an integer's low 32 bits are.
pub fn truncate_ip(ip: i64) -> (r: i32)
    ensures
        r == low_bits(ip),
{
    let r: i32 = #[verifier::truncate] (ip as i32);
    let wide: u64 = #[verifier::truncate] (ip as u64);
    assert(ip >= 0 ==> wide == ip) by (bit_vector)
        requires
            wide == ip as u64,
    ;
    assert(ip < 0 ==> wide == ip + 0x1_0000_0000_0000_0000) by (bit_vector)
        requires
            wide == ip as u64,
    ;
    assert(wide % 0x1_0000_0000 < 0x8000_0000 ==> r == wide % 0x1_0000_0000) by (bit_vector)
        requires
            r == ip as i32,
            wide == ip as u64,
    ;
    assert(wide % 0x1_0000_0000 >= 0x8000_0000 ==> r == wide % 0x1_0000_0000 - 0x1_0000_0000)
        by (bit_vector)
        requires
            r == ip as i32,
            wide == ip as u64,
    ;
    r
}

/// The first IPv4 endpoint of a node, if it has one.
pub fn first_udp4_endpoint(node: &DhtNode) -> (r: Option<Endpoint>)
    ensures
        r == endpoint_of(node@.addr_list.addrs),
{
    let addrs = &node.addr_list.addrs;
    let mut i: usize = 0;
    assert(addrs@.skip(0) =~= addrs@);
    while i < addrs.len()
        invariant
            i <= addrs@.len(),
            addrs@ == node@.addr_list.addrs,
            endpoint_of(addrs@) == endpoint_of(addrs@.skip(i as int)),
        decreases addrs@.len() - i,
    {
        match addrs[i] {
            Address::Udp { ip, port } => {
                let bits: u32 = #[verifier::truncate] (ip as u32);
                assert(ip >= 0 ==> bits == ip) by (bit_vector)
                    requires
                        bits == ip as u32,
                ;
                assert(ip < 0 ==> bits == ip + 0x1_0000_0000) by (bit_vector)
                    requires
                        bits == ip as u32,
                ;
                return Some(Endpoint { ip: Ipv4Addr::from_bits(bits), port });
            },
            Address::Udp6 | Address::Tunnel => {},
        }
        assert(addrs@.skip(i as int).drop_first() =~= addrs@.skip(i + 1));
        i = i + 1;
    }
    None
}

/// A node has an endpoint exactly if one of its addresses is IPv4 over UDP.
pub proof fn law_endpoint_needs_udp(addrs: Seq<Address>)
    ensures
        endpoint_of(addrs) is Some <==> exists|i: int|
            0 <= i < addrs.len() && #[trigger] addrs[i] is Udp,
        endpoint_of(addrs) is Some <==> udp_addresses(addrs).len() > 0,
    decreases addrs.len(),
{
    let is_udp = |address: Address| address is Udp;
    if addrs.len() > 0 {
        let rest = addrs.drop_first();
        if addrs[0] is Udp {
            addrs.lemma_filter_contains(is_udp, 0);
        } else {
            law_endpoint_needs_udp(rest);
            assert(addrs =~= seq![addrs[0]] + rest);
            Seq::filter_distributes_over_add(seq![addrs[0]], rest, is_udp);
            reveal_with_fuel(Seq::filter, 2);
            assert(seq![addrs[0]].filter(is_udp) =~= Seq::empty());
            if endpoint_of(rest) is Some {
                let i = choose|i: int| 0 <= i < rest.len() && #[trigger] rest[i] is Udp;
                assert(addrs[i + 1] is Udp);
            }
            if exists|i: int| 0 <= i < addrs.len() && #[trigger] addrs[i] is Udp {
                let i = choose|i: int| 0 <= i < addrs.len() && #[trigger] addrs[i] is Udp;
                assert(rest[i - 1] is Udp);
            }
        }
    } else {
        reveal(Seq::filter);
    }
}

/// A number and the signed number of its low 32 bits stand for one IPv4 address: it does not
/// matter whether an address was written as a signed or as an unsigned number.
pub proof fn law_ip_sign_is_irrelevant(ip: i64)
    ensures
        i32::MIN <= low_bits(ip) <= i32::MAX,
        unsigned_bits(low_bits(ip) as i32) == ip as int % 0x1_0000_0000,
{
}

/// A node is reached at the first of its addresses that is IPv4 over UDP: at its port, and at the
/// octets of its number, the highest one leading, where a negative number stands for itself and
/// 2^32.
pub proof fn law_endpoint_is_the_first_udp_address(addrs: Seq<Address>, i: int)
    requires
        0 <= i < addrs.len(),
        addrs[i] is Udp,
        forall|j: int| 0 <= j < i ==> !(#[trigger] addrs[j] is Udp),
    ensures
        ({
            let number = if addrs[i]->ip < 0 {
                addrs[i]->ip + 0x1_0000_0000
            } else {
                addrs[i]->ip as int
            };
            let endpoint = endpoint_of(addrs);
            &&& endpoint is Some
            &&& endpoint->0.port == addrs[i]->port
            &&& endpoint->0.ip.a == number / 0x100_0000
            &&& endpoint->0.ip.b == number / 0x1_0000 % 0x100
            &&& endpoint->0.ip.c == number / 0x100 % 0x100
            &&& endpoint->0.ip.d == number % 0x100
        }),
    decreases i,
{
    if i > 0 {
        let rest = addrs.drop_first();
        assert(!(addrs[0] is Udp));
        assert forall|j: int| 0 <= j < i - 1 implies !(#[trigger] rest[j] is Udp) by {
            assert(!(addrs[j + 1] is Udp));
        }
        law_endpoint_is_the_first_udp_address(rest, i - 1);
    }
}

/// The low 32 bits of a number differ from it by a multiple of 2^32, and fit.
pub proof fn law_low_bits_keep_the_remainder(ip: i64)
    ensures
        i32::MIN <= low_bits(ip) <= i32::MAX,
        (low_bits(ip) - ip) % 0x1_0000_0000 == 0,
        i32::MIN <= ip <= i32::MAX ==> low_bits(ip) == ip,
{
}

} // verus!
