//! Addresses and the networks that hold them.

use vstd::prelude::*;
use vstd::arithmetic::div_mod::*;
use vstd::arithmetic::power2::*;
use vstd::bits::*;
use ipnetwork::IpNetwork;

verus! {

/// An address, as its family and its bits.
#[derive(Debug, Clone, Copy, PartialEq, Eq, Structural)]
pub enum Ip {
    /// A version 4 address.
    V4(u32),
    /// A version 6 address.
    V6(u128),
}

/// A network: the addresses of one family that share the first `prefix` bits of `addr`.
#[allow(inconsistent_fields)]
#[derive(Debug, Clone, Copy, PartialEq, Eq, Structural)]
pub enum Cidr {
    /// A version 4 network.
    V4 {
        /// An address of the network.
        addr: u32,
        /// The number of bits that its addresses share.
        prefix: u8,
    },
    /// A version 6 network.
    V6 {
        /// An address of the network.
        addr: u128,
        /// The number of bits that its addresses share.
        prefix: u8,
    },
}

/// The network that a text denotes, if it denotes one.
pub uninterp spec fn cidr_parse(s: Seq<char>) -> Option<Cidr>;

/// Calls `<ipnetwork::IpNetwork as FromStr>::from_str` and keeps the address and the prefix
/// length of what it returns, or that it failed. The result is a function of the text; a
/// network that it returns has a prefix no longer than its addresses.
#[verifier::external_body]
pub(crate) fn parse_cidr(s: &str) -> (res: Option<Cidr>)
    ensures
        res == cidr_parse(s@),
        res matches Some(net) ==> net.wf(),
{
    match s.parse::<IpNetwork>() {
        Ok(IpNetwork::V4(n)) => Some(Cidr::V4 { addr: n.ip().into(), prefix: n.prefix() }),
        Ok(IpNetwork::V6(n)) => Some(Cidr::V6 { addr: n.ip().into(), prefix: n.prefix() }),
        Err(_) => None,
    }
}

/// The address that a text denotes, if it denotes one.
pub uninterp spec fn ip_parse(s: Seq<char>) -> Option<Ip>;

/// Calls `FromStr::from_str` of the standard library's address type, the one that
/// `ipnetwork::IpNetwork::new` takes, and keeps the bits of what it returns, or that it failed.
/// The result is a function of the text.
#[verifier::external_body]
pub(crate) fn parse_ip(s: &str) -> (res: Option<Ip>)
    ensures
        res == ip_parse(s@),
{
    match s.parse().ok().and_then(|a| IpNetwork::new(a, 0).ok()) {
        Some(IpNetwork::V4(n)) => Some(Ip::V4(n.ip().into())),
        Some(IpNetwork::V6(n)) => Some(Ip::V6(n.ip().into())),
        None => None,
    }
}

impl Cidr {
    /// The prefix is no longer than an address.
    pub open spec fn wf(self) -> bool {
        match self {
            Cidr::V4 { prefix, .. } => prefix <= 32,
            Cidr::V6 { prefix, .. } => prefix <= 128,
        }
    }

    /// Whether the network holds an address: it is of the network's family, and its first
    /// `prefix` bits are those of `addr`.
    pub open spec fn holds(self, ip: Ip) -> bool {
        match (self, ip) {
            (Cidr::V4 { addr, prefix }, Ip::V4(a)) => same_above(
                addr as nat,
                a as nat,
                (32 - prefix) as nat,
            ),
            (Cidr::V6 { addr, prefix }, Ip::V6(a)) => same_above(
                addr as nat,
                a as nat,
                (128 - prefix) as nat,
            ),
            _ => false,
        }
    }

    /// Decides [`Cidr::holds`].
    pub fn contains(&self, ip: Ip) -> (res: bool)
        requires
            self.wf(),
        ensures
            res == self.holds(ip),
    {
        match (*self, ip) {
            (Cidr::V4 { addr, prefix }, Ip::V4(a)) => {
                if prefix == 0 {
                    proof {
                        lemma_all_bits_free(addr as nat, a as nat, 32);
                    }
                    true
                } else {
                    let shift: u32 = 32 - prefix as u32;
                    proof {
                        lemma_u32_shr_is_div(a, shift);
                        lemma_u32_shr_is_div(addr, shift);
                    }
                    (a >> shift) == (addr >> shift)
                }
            },
            (Cidr::V6 { addr, prefix }, Ip::V6(a)) => {
                if prefix == 0 {
                    proof {
                        lemma_all_bits_free(addr as nat, a as nat, 128);
                    }
                    true
                } else {
                    let shift: u128 = 128 - prefix as u128;
                    proof {
                        lemma_u128_shr_is_div(a, shift);
                        lemma_u128_shr_is_div(addr, shift);
                    }
                    (a >> shift) == (addr >> shift)
                }
            },
            _ => false,
        }
    }
}

/// Whether two numbers differ in their last `bits` binary digits at most.
pub open spec fn same_above(a: nat, b: nat, bits: nat) -> bool {
    a / pow2(bits) == b / pow2(bits)
}

/// Numbers of at most `bits` binary digits do not differ above them.
proof fn lemma_all_bits_free(a: nat, b: nat, bits: nat)
    requires
        bits == 32 && a <= u32::MAX && b <= u32::MAX || bits == 128 && a <= u128::MAX && b
            <= u128::MAX,
    ensures
        same_above(a, b, bits),
{
    lemma2_to64();
    lemma2_to64_rest();
    lemma_pow2_adds(64, 64);
    assert(pow2(128) == 0x1_0000_0000_0000_0000nat * 0x1_0000_0000_0000_0000nat);
    lemma_basic_div(a as int, pow2(bits) as int);
    lemma_basic_div(b as int, pow2(bits) as int);
}

/// A network of prefix length zero holds every address of its family, and one whose prefix is
/// as long as an address holds that address alone.
pub proof fn law_widest_and_narrowest_network(addr4: u32, ip4: u32, addr6: u128, ip6: u128)
    ensures
        (Cidr::V4 { addr: addr4, prefix: 0 }).holds(Ip::V4(ip4)),
        (Cidr::V6 { addr: addr6, prefix: 0 }).holds(Ip::V6(ip6)),
        (Cidr::V4 { addr: addr4, prefix: 32 }).holds(Ip::V4(ip4)) <==> ip4 == addr4,
        (Cidr::V6 { addr: addr6, prefix: 128 }).holds(Ip::V6(ip6)) <==> ip6 == addr6,
{
    lemma_all_bits_free(addr4 as nat, ip4 as nat, 32);
    lemma_all_bits_free(addr6 as nat, ip6 as nat, 128);
    lemma2_to64();
    lemma_div_basics(addr4 as int);
    lemma_div_basics(ip4 as int);
    lemma_div_basics(addr6 as int);
    lemma_div_basics(ip6 as int);
}

/// The binary digit of a number that counts for `pow2(k)`.
pub open spec fn bit(n: nat, k: nat) -> nat {
    n / pow2(k) % 2
}

/// Numbers of at most `width` binary digits are the same above `bits` of them exactly where each
/// digit above is.
proof fn lemma_same_bits(a: nat, b: nat, bits: nat, width: nat)
    requires
        bits <= width,
        a / pow2(width) == b / pow2(width),
    ensures
        same_above(a, b, bits) <==> forall|k: nat| bits <= k < width ==> #[trigger] bit(a, k) == bit(b, k),
    decreases width - bits,
{
    if bits < width {
        let m = bits + 1;
        lemma_same_bits(a, b, m, width);
        lemma_pow2_pos(bits);
        lemma_pow2_unfold(m);
        lemma_div_denominator(a as int, pow2(bits) as int, 2);
        lemma_div_denominator(b as int, pow2(bits) as int, 2);
        let x = a / pow2(bits);
        let y = b / pow2(bits);
        assert(pow2(bits) * 2 == pow2(m)) by (nonlinear_arith)
            requires
                pow2(m) == 2 * pow2(bits),
        ;
        assert(x / 2 == a / pow2(m));
        assert(y / 2 == b / pow2(m));
        assert(x == x / 2 * 2 + bit(a, bits));
        assert(y == y / 2 * 2 + bit(b, bits));
        if same_above(a, b, bits) {
            assert forall|k: nat| bits <= k < width implies #[trigger] bit(a, k) == bit(b, k) by {
                if k > bits {
                    assert(m <= k);
                }
            }
        }
        if forall|k: nat| bits <= k < width ==> #[trigger] bit(a, k) == bit(b, k) {
            assert(bit(a, bits) == bit(b, bits));
        }
    }
}

/// Two numbers are the same above `bits` binary digits exactly where both lie between the same
/// neighbouring multiples of `pow2(bits)`.
proof fn lemma_same_block(a: nat, b: nat, bits: nat)
    ensures
        same_above(a, b, bits) <==> a - a % pow2(bits) <= b < a - a % pow2(bits) + pow2(bits),
{
    lemma_pow2_pos(bits);
    let m = pow2(bits) as int;
    let x = a as int / m;
    let y = b as int / m;
    lemma_fundamental_div_mod(a as int, m);
    lemma_fundamental_div_mod(b as int, m);
    lemma_mod_bound(b as int, m);
    assert(m * x <= m * y + b as int % m < m * x + m ==> x == y) by (nonlinear_arith)
        requires
            m > 0,
            0 <= b as int % m < m,
    ;
}

/// For every prefix length a version 4 network holds an address if and only if each of its first
/// `prefix` bits, counted from the most significant, is that of the network's address.
pub proof fn law_first_bits_decide_v4(addr: u32, prefix: u8, a: u32, res: bool)
    requires
        prefix <= 32,
        call_ensures(Cidr::contains, (&Cidr::V4 { addr, prefix }, Ip::V4(a)), res),
    ensures
        res <==> forall|k: nat|
            32 - prefix <= k < 32 ==> #[trigger] bit(a as nat, k) == bit(addr as nat, k),
{
    lemma_all_bits_free(addr as nat, a as nat, 32);
    lemma_same_bits(addr as nat, a as nat, (32 - prefix) as nat, 32);
}

/// The same of version 6.
pub proof fn law_first_bits_decide_v6(addr: u128, prefix: u8, a: u128, res: bool)
    requires
        prefix <= 128,
        call_ensures(Cidr::contains, (&Cidr::V6 { addr, prefix }, Ip::V6(a)), res),
    ensures
        res <==> forall|k: nat|
            128 - prefix <= k < 128 ==> #[trigger] bit(a as nat, k) == bit(addr as nat, k),
{
    lemma_all_bits_free(addr as nat, a as nat, 128);
    lemma_same_bits(addr as nat, a as nat, (128 - prefix) as nat, 128);
}

/// A version 4 network holds `pow2(32 - prefix)` addresses in a row, the first of which is a multiple
/// of that number, and the network's address is among them. No other family's address is held.
pub proof fn law_network_is_a_block_v4(addr: u32, prefix: u8, ip: Ip, res: bool)
    requires
        prefix <= 32,
        call_ensures(Cidr::contains, (&Cidr::V4 { addr, prefix }, ip), res),
    ensures
        ({
            let size = pow2((32 - prefix) as nat);
            let first = addr - addr as nat % size;
            &&& first as int % size as int == 0
            &&& first <= addr < first + size
            &&& res <==> (ip matches Ip::V4(a) && first <= a < first + size)
        }),
{
    let size = pow2((32 - prefix) as nat);
    lemma_pow2_pos((32 - prefix) as nat);
    lemma_fundamental_div_mod(addr as int, size as int);
    lemma_mod_bound(addr as int, size as int);
    lemma_mod_multiples_basic(addr as int / size as int, size as int);
    assert(size as int * (addr as int / size as int) == addr as int / size as int * size as int)
        by (nonlinear_arith);
    if let Ip::V4(a) = ip {
        lemma_same_block(addr as nat, a as nat, (32 - prefix) as nat);
    }
}

/// The same of version 6, of `pow2(128 - prefix)` addresses.
pub proof fn law_network_is_a_block_v6(addr: u128, prefix: u8, ip: Ip, res: bool)
    requires
        prefix <= 128,
        call_ensures(Cidr::contains, (&Cidr::V6 { addr, prefix }, ip), res),
    ensures
        ({
            let size = pow2((128 - prefix) as nat);
            let first = addr - addr as nat % size;
            &&& first as int % size as int == 0
            &&& first <= addr < first + size
            &&& res <==> (ip matches Ip::V6(a) && first <= a < first + size)
        }),
{
    let size = pow2((128 - prefix) as nat);
    lemma_pow2_pos((128 - prefix) as nat);
    lemma_fundamental_div_mod(addr as int, size as int);
    lemma_mod_bound(addr as int, size as int);
    lemma_mod_multiples_basic(addr as int / size as int, size as int);
    assert(size as int * (addr as int / size as int) == addr as int / size as int * size as int)
        by (nonlinear_arith);
    if let Ip::V6(a) = ip {
        lemma_same_block(addr as nat, a as nat, (128 - prefix) as nat);
    }
}

/// Whether an address is one of those of a network: of its family, and among the `pow2` of the free
/// bits that start at a multiple of their number and have the network's address among them.
pub open spec fn lies_in(net: Cidr, ip: Ip) -> bool {
    match (net, ip) {
        (Cidr::V4 { addr, prefix }, Ip::V4(a)) => {
            let size = pow2((32 - prefix) as nat);
            addr - addr as nat % size <= a < addr - addr as nat % size + size
        },
        (Cidr::V6 { addr, prefix }, Ip::V6(a)) => {
            let size = pow2((128 - prefix) as nat);
            addr - addr as nat % size <= a < addr - addr as nat % size + size
        },
        _ => false,
    }
}

/// A network holds the addresses that lie in it.
pub proof fn lemma_holds(net: Cidr, ip: Ip)
    requires
        net.wf(),
    ensures
        net.holds(ip) == lies_in(net, ip),
{
    match (net, ip) {
        (Cidr::V4 { addr, prefix }, Ip::V4(a)) => {
            lemma_same_block(addr as nat, a as nat, (32 - prefix) as nat);
        },
        (Cidr::V6 { addr, prefix }, Ip::V6(a)) => {
            lemma_same_block(addr as nat, a as nat, (128 - prefix) as nat);
        },
        _ => {},
    }
}

} // verus!
