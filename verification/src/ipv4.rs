//! IPv4 addresses, and which of them are public.

use crate::text::{decimal, decimal_text, law_decimal_reads_back, value_of};
use vstd::prelude::*;
use vstd::string::*;

verus! {

/// An IPv4 address by its four octets, the first one leading.
#[derive(Clone, Copy, Debug, PartialEq, Eq, Structural)]
pub struct Ipv4Addr {
    pub a: u8,
    pub b: u8,
    pub c: u8,
    pub d: u8,
}

impl Ipv4Addr {
    /// The address as one number, the first octet leading.
    pub open spec fn bits(self) -> int {
        self.a * 0x100_0000 + self.b * 0x1_0000 + self.c * 0x100 + self.d
    }

    /// The address whose number is `bits`.
    pub open spec fn of_bits(bits: u32) -> Ipv4Addr {
        Ipv4Addr {
            a: (bits / 0x100_0000) as u8,
            b: (bits / 0x1_0000 % 0x100) as u8,
            c: (bits / 0x100 % 0x100) as u8,
            d: (bits % 0x100) as u8,
        }
    }

    /// The address in dotted decimal.
    pub open spec fn dotted(self) -> Seq<char> {
        decimal(self.a as nat) + "."@ + decimal(self.b as nat) + "."@ + decimal(self.c as nat)
            + "."@ + decimal(self.d as nat)
    }

    pub fn new(a: u8, b: u8, c: u8, d: u8) -> (r: Ipv4Addr)
        ensures
            r == (Ipv4Addr { a, b, c, d }),
    {
        Ipv4Addr { a, b, c, d }
    }

    /// The address that a number stands for.
    pub fn from_bits(bits: u32) -> (r: Ipv4Addr)
        ensures
            r == Ipv4Addr::of_bits(bits),
            r.bits() == bits,
    {
        let a: u32 = bits / 0x100_0000;
        let b: u32 = bits / 0x1_0000 % 0x100;
        let c: u32 = bits / 0x100 % 0x100;
        let d: u32 = bits % 0x100;
        Ipv4Addr { a: a as u8, b: b as u8, c: c as u8, d: d as u8 }
    }

    /// The four octets.
    pub fn octets(&self) -> (r: [u8; 4])
        ensures
            r@ == seq![self.a, self.b, self.c, self.d],
    {
        [self.a, self.b, self.c, self.d]
    }

    /// The address in dotted decimal.
    pub fn to_text(&self) -> (r: String)
        ensures
            r@ == self.dotted(),
    {
        let mut r = decimal_text(self.a as u64);
        r.append(".");
        r.append(decimal_text(self.b as u64).as_str());
        r.append(".");
        r.append(decimal_text(self.c as u64).as_str());
        r.append(".");
        r.append(decimal_text(self.d as u64).as_str());
        r
    }

    /// `10.0.0.0/8`, `172.16.0.0/12` or `192.168.0.0/16`.
    pub open spec fn private(self) -> bool {
        ||| self.a == 10
        ||| self.a == 172 && 16 <= self.b <= 31
        ||| self.a == 192 && self.b == 168
    }

    /// `127.0.0.0/8`.
    pub open spec fn loopback(self) -> bool {
        self.a == 127
    }

    /// `169.254.0.0/16`.
    pub open spec fn link_local(self) -> bool {
        self.a == 169 && self.b == 254
    }

    /// `224.0.0.0/4`.
    pub open spec fn multicast(self) -> bool {
        224 <= self.a <= 239
    }

    /// `255.255.255.255`.
    pub open spec fn broadcast(self) -> bool {
        self.a == 255 && self.b == 255 && self.c == 255 && self.d == 255
    }

    /// `192.0.2.0/24`, `198.51.100.0/24` or `203.0.113.0/24`.
    pub open spec fn documentation(self) -> bool {
        ||| self.a == 192 && self.b == 0 && self.c == 2
        ||| self.a == 198 && self.b == 51 && self.c == 100
        ||| self.a == 203 && self.b == 0 && self.c == 113
    }

    /// `0.0.0.0`.
    pub open spec fn unspecified(self) -> bool {
        self.a == 0 && self.b == 0 && self.c == 0 && self.d == 0
    }

    /// An address that a peer anywhere can be reached at: in none of the special ranges, nor in
    /// `0.0.0.0/8` or from `240.0.0.0` on.
    pub open spec fn public(self) -> bool {
        &&& !self.private()
        &&& !self.loopback()
        &&& !self.link_local()
        &&& !self.multicast()
        &&& !self.broadcast()
        &&& !self.documentation()
        &&& !self.unspecified()
        &&& self.a != 0
        &&& self.a < 240
    }

    pub fn is_private(&self) -> (r: bool)
        ensures
            r == self.private(),
    {
        self.a == 10 || (self.a == 172 && self.b >= 16 && self.b <= 31) || (self.a == 192 && self.b
            == 168)
    }

    pub fn is_loopback(&self) -> (r: bool)
        ensures
            r == self.loopback(),
    {
        self.a == 127
    }

    pub fn is_link_local(&self) -> (r: bool)
        ensures
            r == self.link_local(),
    {
        self.a == 169 && self.b == 254
    }

    pub fn is_multicast(&self) -> (r: bool)
        ensures
            r == self.multicast(),
    {
        self.a >= 224 && self.a <= 239
    }

    pub fn is_broadcast(&self) -> (r: bool)
        ensures
            r == self.broadcast(),
    {
        self.a == 255 && self.b == 255 && self.c == 255 && self.d == 255
    }

    pub fn is_documentation(&self) -> (r: bool)
        ensures
            r == self.documentation(),
    {
        (self.a == 192 && self.b == 0 && self.c == 2) || (self.a == 198 && self.b == 51 && self.c
            == 100) || (self.a == 203 && self.b == 0 && self.c == 113)
    }

    pub fn is_unspecified(&self) -> (r: bool)
        ensures
            r == self.unspecified(),
    {
        self.a == 0 && self.b == 0 && self.c == 0 && self.d == 0
    }
}

/// Whether an address is public.
pub fn is_public_ipv4(ip: Ipv4Addr) -> (r: bool)
    ensures
        r == ip.public(),
{
    let octets: [u8; 4] = ip.octets();
    !(ip.is_private() || ip.is_loopback() || ip.is_link_local() || ip.is_multicast()
        || ip.is_broadcast() || ip.is_documentation() || ip.is_unspecified() || octets[0] == 0
        || octets[0] >= 240)
}

/// An address is its number: two addresses with the same number are the same.
pub proof fn law_bits_identify_address(x: Ipv4Addr, y: Ipv4Addr)
    requires
        x.bits() == y.bits(),
    ensures
        x == y,
{
    assert(x.a == y.a);
    assert(x.b == y.b);
    assert(x.c == y.c);
}

/// Every number is that of an address.
pub proof fn law_every_number_has_an_address(bits: u32)
    ensures
        Ipv4Addr::of_bits(bits).bits() == bits,
{
}

/// The public addresses are all but those in a list of ranges, by their numbers: `0.0.0.0/8`,
/// `10.0.0.0/8`, `127.0.0.0/8`, `169.254.0.0/16`, `172.16.0.0/12`, `192.0.2.0/24`,
/// `192.168.0.0/16`, `198.51.100.0/24`, `203.0.113.0/24`, and from `224.0.0.0` on.
pub proof fn law_public_addresses_are_outside_the_ranges(ip: Ipv4Addr)
    ensures
        ({
            let n = ip.a * 0x100_0000 + ip.b * 0x1_0000 + ip.c * 0x100 + ip.d;
            ip.public() <==> {
                &&& !(0x0000_0000 <= n <= 0x00FF_FFFF)
                &&& !(0x0A00_0000 <= n <= 0x0AFF_FFFF)
                &&& !(0x7F00_0000 <= n <= 0x7FFF_FFFF)
                &&& !(0xA9FE_0000 <= n <= 0xA9FE_FFFF)
                &&& !(0xAC10_0000 <= n <= 0xAC1F_FFFF)
                &&& !(0xC000_0200 <= n <= 0xC000_02FF)
                &&& !(0xC0A8_0000 <= n <= 0xC0A8_FFFF)
                &&& !(0xC633_6400 <= n <= 0xC633_64FF)
                &&& !(0xCB00_7100 <= n <= 0xCB00_71FF)
                &&& n < 0xE000_0000
            }
        }),
{
}

/// An address is shown by its octets in order, with dots between them, each as a number that
/// reads back.
pub proof fn law_dotted_shows_the_octets(ip: Ipv4Addr)
    ensures
        ({
            let (a, b, c, d) = (
                decimal(ip.a as nat),
                decimal(ip.b as nat),
                decimal(ip.c as nat),
                decimal(ip.d as nat),
            );
            &&& ip.dotted() == a + seq!['.'] + b + seq!['.'] + c + seq!['.'] + d
            &&& value_of(a) == ip.a
            &&& value_of(b) == ip.b
            &&& value_of(c) == ip.c
            &&& value_of(d) == ip.d
        }),
{
    reveal_strlit(".");
    assert("."@ =~= seq!['.']);
    law_decimal_reads_back(ip.a as nat);
    law_decimal_reads_back(ip.b as nat);
    law_decimal_reads_back(ip.c as nat);
    law_decimal_reads_back(ip.d as nat);
}

} // verus!
