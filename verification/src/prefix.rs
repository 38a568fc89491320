//! Address blocks in CIDR notation, and the IPv6 block that outbound addresses
//! are drawn from.
use crate::error::bad_input;
use crate::error::invalid_input;
use crate::error::Error;
use crate::error::ErrorKind;
use crate::error::Failure;
use crate::net::ipv6_text;
use crate::net::parse_ipv6;
use crate::text::chars_of;
use crate::text::law_split_once;
use crate::text::parse_u8;
use crate::text::split_once;
use crate::text::split_once_chars;
use crate::text::string_of;
use crate::text::u8_text;
use vstd::arithmetic::div_mod::lemma_fundamental_div_mod;
use vstd::arithmetic::div_mod::lemma_fundamental_div_mod_converse;
use vstd::arithmetic::power2::lemma2_to64;
use vstd::arithmetic::power2::lemma2_to64_rest;
use vstd::arithmetic::power2::lemma_pow2_adds;
use vstd::arithmetic::power2::lemma_pow2_pos;
use vstd::arithmetic::power2::pow2;
use vstd::bits::lemma_u128_shr_is_div;
use vstd::bits::lemma_u32_shr_is_div;
use vstd::prelude::*;

verus! {

/// How many addresses a block has that fixes the first `len` of `bits` bits.
pub open spec fn block_size(bits: nat, len: nat) -> nat {
    pow2((bits - len) as nat)
}

/// The first address of the block of `size` addresses that holds `x`.
pub open spec fn block_start(x: int, size: nat) -> int {
    x - x % (size as int)
}

/// Whether `x` lies in the block of `size` addresses that starts at `start`.
pub open spec fn in_block(x: int, start: int, size: nat) -> bool {
    start <= x < start + size
}

/// Two numbers are in the same block exactly if their blocks start alike.
pub proof fn lemma_same_block(x: int, y: int, size: nat)
    requires
        size > 0,
    ensures
        in_block(x, block_start(y, size), size) <==> block_start(x, size) == block_start(y, size),
        in_block(x, block_start(x, size), size),
        block_start(block_start(x, size), size) == block_start(x, size),
        y >= 0 ==> 0 <= block_start(y, size) <= y,
{
    let s = size as int;
    lemma_fundamental_div_mod(x, s);
    lemma_fundamental_div_mod(y, s);
    let start = block_start(y, size);
    if in_block(x, start, size) {
        assert(start == s * (y / s));
        assert(x == (y / s) * s + (x - start)) by (nonlinear_arith)
            requires
                start == s * (y / s),
        ;
        lemma_fundamental_div_mod_converse(x, s, y / s, x - start);
    }
    let own = block_start(x, size);
    assert(own == (x / s) * s + 0) by (nonlinear_arith)
        requires
            own == x - x % s,
            x == s * (x / s) + x % s,
    ;
    lemma_fundamental_div_mod_converse(own, s, x / s, 0);
    if y >= 0 {
        assert(s * (y / s) >= 0) by (nonlinear_arith)
            requires
                y >= 0,
                s > 0,
        ;
    }
}

/// A block holds the numbers with the same leading bits.
pub proof fn lemma_same_quotient(x: int, y: int, size: nat)
    requires
        size > 0,
    ensures
        in_block(x, block_start(y, size), size) <==> x / (size as int) == y / (size as int),
        y >= 0 ==> 0 <= block_start(y, size) <= y,
{
    let s = size as int;
    lemma_same_block(x, y, size);
    lemma_fundamental_div_mod(x, s);
    lemma_fundamental_div_mod(y, s);
    if block_start(x, size) == block_start(y, size) {
        assert(x / s == y / s) by (nonlinear_arith)
            requires
                s > 0,
                s * (x / s) == s * (y / s),
        ;
    }
}

// --- 128 bits ---

proof fn lemma_pow2_128()
    ensures
        pow2(128) == u128::MAX + 1,
        pow2(32) == u32::MAX + 1,
{
    lemma2_to64();
    lemma2_to64_rest();
    lemma_pow2_adds(64, 64);
}

/// All ones divided by a power of two are all ones again.
proof fn lemma_ones_shifted(n: nat, k: nat)
    ensures
        (pow2(n + k) - 1) / (pow2(n) as int) == pow2(k) - 1,
{
    let p = pow2(n) as int;
    let q = pow2(k) as int;
    lemma_pow2_pos(n);
    lemma_pow2_pos(k);
    lemma_pow2_adds(n, k);
    assert(p * q - 1 == (q - 1) * p + (p - 1)) by (nonlinear_arith);
    lemma_fundamental_div_mod_converse(p * q - 1, p, q - 1, p - 1);
}

/// The value of the mask whose low `k` bits are clear.
proof fn lemma_mask128(k: u128)
    requires
        k < 128,
    ensures
        (u128::MAX << k) == pow2(128) - pow2(k as nat),
{
    let m = u128::MAX << k;
    if k == 0 {
        assert(m == u128::MAX) by (bit_vector)
            requires
                m == u128::MAX << k,
                k == 0,
        ;
        lemma_pow2_128();
        lemma2_to64();
    } else {
        let n: u128 = (128 - k) as u128;
        let ones = u128::MAX >> n;
        assert(m == u128::MAX - ones) by (bit_vector)
            requires
                0 < k < 128,
                n == 128 - k,
                m == u128::MAX << k,
                ones == u128::MAX >> n,
        ;
        lemma_u128_shr_is_div(u128::MAX, n);
        lemma_ones_shifted(n as nat, k as nat);
        lemma_pow2_128();
    }
}

/// Masking off the low `k` bits goes back to the start of the block.
proof fn lemma_masked128(x: u128, k: u128)
    requires
        k < 128,
    ensures
        (x & (u128::MAX << k)) == block_start(x as int, pow2(k as nat)),
        (x & !(u128::MAX << k)) == x as int % (pow2(k as nat) as int),
{
    let m = u128::MAX << k;
    let s = pow2(k as nat) as int;
    lemma_pow2_pos(k as nat);
    lemma_mask128(k);
    lemma_pow2_128();
    let a = x & m;
    let b = x & !m;
    assert(x == a + b && a <= x && a >> k == x >> k) by (bit_vector)
        requires
            k < 128,
            m == u128::MAX << k,
            a == x & m,
            b == x & !m,
    ;
    lemma_u128_shr_is_div(a, k);
    lemma_u128_shr_is_div(x, k);
    lemma_fundamental_div_mod(a as int, s);
    lemma_fundamental_div_mod(x as int, s);
    // The start of the block of `a` has the same high bits, so it is not below `a`.
    let y: u128 = (a - a as int % s) as u128;
    assert(y == s * (a as int / s));
    assert(y as int == (a as int / s) * s + 0) by (nonlinear_arith)
        requires
            y == s * (a as int / s),
    ;
    lemma_fundamental_div_mod_converse(y as int, s, a as int / s, 0);
    lemma_u128_shr_is_div(y, k);
    assert(y >= a) by (bit_vector)
        requires
            k < 128,
            m == u128::MAX << k,
            a == x & m,
            y >> k == a >> k,
    ;
}

/// The mask of the first `prefix_len` of 128 bits.
pub fn prefix_mask(prefix_len: u8) -> (mask: u128)
    requires
        prefix_len <= 128,
    ensures
        mask == pow2(128) - block_size(128, prefix_len as nat),
{
    if prefix_len == 0 {
        0
    } else {
        let shift: u8 = 128 - prefix_len;
        proof {
            lemma_mask128(shift as u128);
        }
        u128::MAX << shift
    }
}

/// What the mask of `prefix_len` bits keeps of `x`, and what it takes away.
proof fn lemma_prefix_mask(x: u128, prefix_len: u8, mask: u128)
    requires
        prefix_len <= 128,
        mask == pow2(128) - block_size(128, prefix_len as nat),
    ensures
        (x & mask) == block_start(x as int, block_size(128, prefix_len as nat)),
        (x & !mask) == x as int % (block_size(128, prefix_len as nat) as int),
        block_size(128, prefix_len as nat) > 0,
{
    lemma_pow2_pos((128 - prefix_len) as nat);
    if prefix_len == 0 {
        lemma_pow2_128();
        assert(x & 0 == 0 && x & !0u128 == x) by (bit_vector);
    } else {
        let k: u128 = (128 - prefix_len) as u128;
        lemma_mask128(k);
        lemma_masked128(x, k);
    }
}

// --- 32 bits ---

/// The value of the mask whose low `k` bits are clear.
proof fn lemma_mask32(k: u32)
    requires
        k < 32,
    ensures
        (u32::MAX << k) == pow2(32) - pow2(k as nat),
{
    let m = u32::MAX << k;
    if k == 0 {
        assert(m == u32::MAX) by (bit_vector)
            requires
                m == u32::MAX << k,
                k == 0,
        ;
        lemma_pow2_128();
        lemma2_to64();
    } else {
        let n: u32 = (32 - k) as u32;
        let ones = u32::MAX >> n;
        assert(m == u32::MAX - ones) by (bit_vector)
            requires
                0 < k < 32,
                n == 32 - k,
                m == u32::MAX << k,
                ones == u32::MAX >> n,
        ;
        lemma_u32_shr_is_div(u32::MAX, n);
        lemma_ones_shifted(n as nat, k as nat);
        lemma_pow2_128();
    }
}

/// Masking off the low `k` bits goes back to the start of the block.
proof fn lemma_masked32(x: u32, k: u32)
    requires
        k < 32,
    ensures
        (x & (u32::MAX << k)) == block_start(x as int, pow2(k as nat)),
{
    let m = u32::MAX << k;
    let s = pow2(k as nat) as int;
    lemma_pow2_pos(k as nat);
    lemma_mask32(k);
    lemma_pow2_128();
    let a = x & m;
    let b = x & !m;
    assert(x == a + b && a <= x && a >> k == x >> k) by (bit_vector)
        requires
            k < 32,
            m == u32::MAX << k,
            a == x & m,
            b == x & !m,
    ;
    lemma_u32_shr_is_div(a, k);
    lemma_u32_shr_is_div(x, k);
    lemma_fundamental_div_mod(a as int, s);
    lemma_fundamental_div_mod(x as int, s);
    // The start of the block of `a` has the same high bits, so it is not below `a`.
    let y: u32 = (a - a as int % s) as u32;
    assert(y as int == (a as int / s) * s + 0) by (nonlinear_arith)
        requires
            y == a - a as int % s,
            a as int == s * (a as int / s) + a as int % s,
    ;
    lemma_fundamental_div_mod_converse(y as int, s, a as int / s, 0);
    lemma_u32_shr_is_div(y, k);
    assert(y >= a) by (bit_vector)
        requires
            k < 32,
            m == u32::MAX << k,
            a == x & m,
            y >> k == a >> k,
    ;
}

/// The mask of the first `prefix_len` of 32 bits.
pub fn ipv4_prefix_mask(prefix_len: u8) -> (mask: u32)
    requires
        prefix_len <= 32,
    ensures
        mask == pow2(32) - block_size(32, prefix_len as nat),
{
    if prefix_len == 0 {
        proof {
            lemma_pow2_128();
        }
        0
    } else {
        let shift: u8 = 32 - prefix_len;
        proof {
            lemma_mask32(shift as u32);
        }
        u32::MAX << shift
    }
}

/// What the mask of `prefix_len` bits keeps of `x`.
proof fn lemma_ipv4_prefix_mask(x: u32, prefix_len: u8, mask: u32)
    requires
        prefix_len <= 32,
        mask == pow2(32) - block_size(32, prefix_len as nat),
    ensures
        (x & mask) == block_start(x as int, block_size(32, prefix_len as nat)),
        block_size(32, prefix_len as nat) > 0,
{
    lemma_pow2_pos((32 - prefix_len) as nat);
    if prefix_len == 0 {
        lemma_pow2_128();
        assert(mask == 0);
        assert(x & 0 == 0) by (bit_vector);
        assert(x as int % 0x1_0000_0000 == x);
    } else {
        let k: u32 = (32 - prefix_len) as u32;
        lemma_mask32(k);
        lemma_masked32(x, k);
    }
}

/// The start of the IPv6 block of `prefix_len` bits that holds `x`.
pub fn network_of(x: u128, prefix_len: u8) -> (network: u128)
    requires
        prefix_len <= 128,
    ensures
        network == block_start(x as int, block_size(128, prefix_len as nat)),
{
    let mask = prefix_mask(prefix_len);
    proof {
        lemma_prefix_mask(x, prefix_len, mask);
    }
    x & mask
}

/// The start of the IPv4 block of `prefix_len` bits that holds `x`.
pub fn ipv4_network_of(x: u32, prefix_len: u8) -> (network: u32)
    requires
        prefix_len <= 32,
    ensures
        network == block_start(x as int, block_size(32, prefix_len as nat)),
{
    let mask = ipv4_prefix_mask(prefix_len);
    proof {
        lemma_ipv4_prefix_mask(x, prefix_len, mask);
    }
    x & mask
}

// --- The outbound block ---

/// A block of IPv6 addresses: the first one, and how many leading bits all of
/// them share.
#[derive(Clone, Copy, Debug, PartialEq, Eq, Structural)]
pub struct Ipv6Prefix {
    pub network: u128,
    pub prefix_len: u8,
}

/// The block that a CIDR text denotes, once its address part was read as `addr`
/// and its length part is the text `len`.
pub open spec fn prefix_from_parts(addr: Option<u128>, len: Seq<char>) -> Result<
    Ipv6Prefix,
    Failure,
> {
    match (addr, u8_text(len)) {
        (None, _) => Err(bad_input("invalid IPv6 prefix address"@)),
        (Some(_), None) => Err(bad_input("invalid IPv6 prefix length"@)),
        (Some(ip), Some(n)) => if n > 128 {
            Err(bad_input("IPv6 prefix length must be between 0 and 128"@))
        } else {
            Ok(
                Ipv6Prefix {
                    network: block_start(ip as int, block_size(128, n as nat)) as u128,
                    prefix_len: n,
                },
            )
        },
    }
}

/// The block that the CIDR text `value` denotes.
pub open spec fn prefix_text(value: Seq<char>) -> Result<Ipv6Prefix, Failure> {
    match split_once(value, '/') {
        None => Err(
            bad_input("IPv6 prefix must be in CIDR format, e.g. 2001:470:19:226::/64"@),
        ),
        Some((addr, len)) => prefix_from_parts(ipv6_text(addr), len),
    }
}

/// `r` as the specifications speak of it.
pub open spec fn prefix_result(r: Result<Ipv6Prefix, Error>) -> Result<Ipv6Prefix, Failure> {
    match r {
        Ok(p) => Ok(p),
        Err(e) => Err(e@),
    }
}

/// `rand::Rng::gen` on the thread's generator, `rand::thread_rng`. Any `u128` may
/// come, another one each time: nothing is claimed of it. It panics where the
/// system has no randomness to give, as `thread_rng` does.
#[verifier::external_body]
fn random_u128() -> (value: u128) {
    rand::Rng::gen::<u128>(&mut rand::thread_rng())
}

/// Whether the generator can give `value`: what a call of it gave, it can give.
/// Nothing else is known of it.
pub closed spec fn can_be_drawn(value: u128) -> bool {
    call_ensures(random_u128, (), value)
}

/// Only what the generator gives can be drawn.
proof fn lemma_drawn_by_the_generator(value: u128)
    ensures
        can_be_drawn(value) == call_ensures(random_u128, (), value),
{
}

/// A number out of `source`.
fn drawn_from(source: impl Fn() -> u128) -> (value: u128)
    requires
        call_requires(source, ()),
    ensures
        call_ensures(source, (), value),
{
    source()
}

impl Ipv6Prefix {
    /// The prefix length is in range and the network is the start of its block.
    pub open spec fn wf(self) -> bool {
        &&& self.prefix_len <= 128
        &&& self.network == block_start(self.network as int, self.size())
    }

    /// How many addresses the block has.
    pub open spec fn size(self) -> nat {
        block_size(128, self.prefix_len as nat)
    }

    /// Whether `addr` lies in the block.
    pub open spec fn contains(self, addr: u128) -> bool {
        in_block(addr as int, self.network as int, self.size())
    }

    /// The block whose address part was read as `addr` and whose length part is
    /// `len`.
    pub fn from_parts(addr: Option<u128>, len: &[char]) -> (r: Result<Self, Error>)
        ensures
            prefix_result(r) == prefix_from_parts(addr, len@),
            r matches Ok(p) ==> p.wf() && p.contains(addr->0),
    {
        let ip = match addr {
            Some(ip) => ip,
            None => return Err(invalid_input("invalid IPv6 prefix address")),
        };
        let prefix_len = match parse_u8(len) {
            Some(n) => n,
            None => return Err(invalid_input("invalid IPv6 prefix length")),
        };
        if prefix_len > 128 {
            return Err(invalid_input("IPv6 prefix length must be between 0 and 128"));
        }
        let network = network_of(ip, prefix_len);
        proof {
            lemma_pow2_pos((128 - prefix_len) as nat);
            lemma_same_block(ip as int, ip as int, block_size(128, prefix_len as nat));
        }
        Ok(Ipv6Prefix { network, prefix_len })
    }

    /// Reads a block in CIDR notation, such as `2001:470:19:226::/64`.
    pub fn parse(value: &str) -> (r: Result<Self, Error>)
        ensures
            prefix_result(r) == prefix_text(value@),
            r matches Ok(p) ==> p.wf(),
    {
        let chars = chars_of(value);
        match split_once_chars(chars.as_slice(), '/') {
            Some((addr, len)) => {
                let text = string_of(addr);
                Self::from_parts(parse_ipv6(text.as_str()), len)
            },
            None => Err(
                invalid_input("IPv6 prefix must be in CIDR format, e.g. 2001:470:19:226::/64"),
            ),
        }
    }

    /// The address of the block whose host bits are those of `random`.
    pub fn addr_with_host(self, random: u128) -> (addr: u128)
        requires
            self.wf(),
        ensures
            addr == self.network + random as int % (self.size() as int),
            self.contains(addr),
    {
        let mask = prefix_mask(self.prefix_len);
        let host_mask = !mask;
        let host = random & host_mask;
        proof {
            let network = self.network;
            lemma_prefix_mask(random, self.prefix_len, mask);
            lemma_prefix_mask(network, self.prefix_len, mask);
            assert(network | host == network + host) by (bit_vector)
                requires
                    network & mask == network,
                    host == random & !mask,
            ;
        }
        self.network | host
    }

    /// An address of the block, drawn at random: its host bits are those of a
    /// number that the generator gave.
    pub fn random_addr(self) -> (addr: u128)
        requires
            self.wf(),
        ensures
            self.contains(addr),
            exists|drawn: u128| #[trigger]
                can_be_drawn(drawn) && addr == self.network + drawn as int % (
                pow2((128 - self.prefix_len) as nat) as int),
    {
        let drawn = drawn_from(random_u128);
        assert(can_be_drawn(drawn));
        self.addr_with_host(drawn)
    }
}

/// Every address of the block can be drawn: it comes of the number that it is.
pub proof fn law_every_address_can_be_drawn(prefix: Ipv6Prefix, addr: u128)
    requires
        prefix.wf(),
        prefix.contains(addr),
    ensures
        addr == prefix.network + addr as int % (prefix.size() as int),
{
    lemma_pow2_pos((128 - prefix.prefix_len) as nat);
    lemma_same_block(addr as int, prefix.network as int, prefix.size());
}

/// Every address of the block that a CIDR text denotes shares its leading bits
/// with the address in the text, and no other address does.
pub proof fn law_block_of_text(addr: u128, len: Seq<char>, other: u128)
    requires
        prefix_from_parts(Some(addr), len) is Ok,
    ensures
        ({
            let p = prefix_from_parts(Some(addr), len)->Ok_0;
            p.contains(other) <==> other as int / (p.size() as int) == addr as int / (
            p.size() as int)
        }),
{
    let p = prefix_from_parts(Some(addr), len)->Ok_0;
    lemma_pow2_pos((128 - p.prefix_len) as nat);
    lemma_same_quotient(other as int, addr as int, p.size());
}

/// A block of `len` fixed bits is one of as many equal parts as those bits have
/// values.
pub proof fn law_block_size(bits: nat, len: nat)
    requires
        len <= bits,
    ensures
        block_size(bits, len) * pow2(len) == pow2(bits),
        block_size(bits, len) > 0,
{
    lemma_pow2_adds((bits - len) as nat, len);
    lemma_pow2_pos((bits - len) as nat);
}

/// The IPv6 block around an address holds the addresses that agree with it in the
/// leading bits.
pub proof fn law_ipv6_block_by_bits(addr: u128, len: u8, other: u128)
    requires
        len <= 128,
    ensures
        in_block(
            other as int,
            block_start(addr as int, block_size(128, len as nat)),
            block_size(128, len as nat),
        ) <==> len == 0 || other >> (128 - len) as u128 == addr >> (128 - len) as u128,
{
    lemma_pow2_pos((128 - len) as nat);
    lemma_same_quotient(other as int, addr as int, block_size(128, len as nat));
    if len == 0 {
        lemma_pow2_128();
        assert(addr as int % (u128::MAX + 1) == addr);
    } else {
        let k = (128 - len) as u128;
        lemma_u128_shr_is_div(other, k);
        lemma_u128_shr_is_div(addr, k);
    }
}

/// The IPv4 block around an address holds the addresses that agree with it in the
/// leading bits.
pub proof fn law_ipv4_block_by_bits(addr: u32, len: u8, other: u32)
    requires
        len <= 32,
    ensures
        in_block(
            other as int,
            block_start(addr as int, block_size(32, len as nat)),
            block_size(32, len as nat),
        ) <==> len == 0 || other >> (32 - len) as u32 == addr >> (32 - len) as u32,
{
    lemma_pow2_pos((32 - len) as nat);
    lemma_same_quotient(other as int, addr as int, block_size(32, len as nat));
    if len == 0 {
        lemma_pow2_128();
        assert(addr as int % 0x1_0000_0000 == addr);
    } else {
        let k = (32 - len) as u32;
        lemma_u32_shr_is_div(other, k);
        lemma_u32_shr_is_div(addr, k);
    }
}

/// An address, a slash and a length make a block exactly if the length is at most
/// that of an address; the block has that length, and holds the addresses that
/// agree with the address in so many leading bits.
pub proof fn law_block_is_read(
    before: Seq<char>,
    addr: u128,
    part: Seq<char>,
    len: u8,
    other: u128,
)
    requires
        !before.contains('/'),
        ipv6_text(before) == Some(addr),
        u8_text(part) == Some(len),
    ensures
        match prefix_text(before.push('/') + part) {
            Ok(p) => len <= 128 && p.prefix_len == len && p.wf() && (p.contains(other) <==> len == 0
                || other >> (128 - len) as u128 == addr >> (128 - len) as u128),
            Err(f) => len > 128 && f.kind == ErrorKind::InvalidInput,
        },
{
    law_split_once(before, '/', part);
    if len <= 128 {
        lemma_pow2_pos((128 - len) as nat);
        lemma_same_block(addr as int, addr as int, block_size(128, len as nat));
        law_ipv6_block_by_bits(addr, len, other);
    }
}

/// A text that is no address, a slash and a length up to that of an address is no
/// block.
pub proof fn law_other_texts_are_no_block(before: Seq<char>, len: Seq<char>)
    requires
        !before.contains('/'),
    ensures
        prefix_text(before) matches Err(f) && f.kind == ErrorKind::InvalidInput,
        ipv6_text(before) is None || u8_text(len) is None ==> (prefix_text(before.push('/') + len)
            matches Err(f) && f.kind == ErrorKind::InvalidInput),
{
    law_split_once(before, '/', len);
}

/// A number drawn for a block gives an address with the leading bits of the block
/// and the other bits of the number.
pub proof fn law_host_bits_come_from_the_number(prefix: Ipv6Prefix, random: u128, addr: u128)
    requires
        prefix.wf(),
        call_ensures(Ipv6Prefix::addr_with_host, (prefix, random), addr),
    ensures
        prefix.prefix_len > 0 ==> addr >> (128 - prefix.prefix_len) as u128 == prefix.network >> (
        128 - prefix.prefix_len) as u128,
        (addr - random) % (pow2((128 - prefix.prefix_len) as nat) as int) == 0,
{
    let size = prefix.size() as int;
    lemma_pow2_pos((128 - prefix.prefix_len) as nat);
    law_ipv6_block_by_bits(prefix.network, prefix.prefix_len, addr);
    lemma_same_block(prefix.network as int, prefix.network as int, prefix.size());
    lemma_fundamental_div_mod(prefix.network as int, size);
    lemma_fundamental_div_mod(random as int, size);
    let q = prefix.network as int / size - random as int / size;
    assert(addr - random == q * size + 0) by (nonlinear_arith)
        requires
            addr == prefix.network + random as int % size,
            prefix.network == size * (prefix.network as int / size),
            random == size * (random as int / size) + random as int % size,
            q == prefix.network as int / size - random as int / size,
    ;
    lemma_fundamental_div_mod_converse(addr - random, size, q, 0);
}

/// Every address that is drawn has the leading bits of the block and the other
/// bits of a number that the generator can give, whatever the length of the
/// block.
pub proof fn law_drawn_number_decides(prefix: Ipv6Prefix, addr: u128)
    requires
        prefix.wf(),
        call_ensures(Ipv6Prefix::random_addr, (prefix,), addr),
    ensures
        prefix.prefix_len > 0 ==> addr >> (128 - prefix.prefix_len) as u128 == prefix.network >> (
        128 - prefix.prefix_len) as u128,
        exists|drawn: u128| #[trigger]
            can_be_drawn(drawn) && addr == prefix.network + drawn as int % (pow2(
                (128 - prefix.prefix_len) as nat,
            ) as int),
{
    lemma_pow2_pos((128 - prefix.prefix_len) as nat);
    law_ipv6_block_by_bits(prefix.network, prefix.prefix_len, addr);
}

/// The start of a block is a multiple of its size, and less than that below what
/// the block holds.
pub proof fn law_block_start(x: int, size: nat)
    requires
        size > 0,
    ensures
        block_start(x, size) <= x < block_start(x, size) + size,
        block_start(x, size) % (size as int) == 0,
{
    lemma_same_block(x, x, size);
}

/// An error stays the error that it was, and a block the block.
pub proof fn law_block_result_is_kept(p: Ipv6Prefix, e: Error)
    ensures
        prefix_result(Ok(p)) == Ok::<Ipv6Prefix, Failure>(p),
        prefix_result(Err(e)) == Err::<Ipv6Prefix, Failure>(e@),
{
}

} // verus!
