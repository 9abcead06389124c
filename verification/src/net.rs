//! IPv4 addresses and CIDR blocks as the agent reads them, and the byte order of the keys
//! that the kernel's longest-prefix-match map compares.
use vstd::endian::{endianness, Endian};
use vstd::prelude::*;

use crate::text::{
    all_digits, chars_of, decimal_text, decimal_value, digits_value, parse_unsigned,
    is_digit, lemma_decimal_text, lemma_split_on_join, lemma_split_on_no_sep, lemma_trim_no_white_ends,
    parse_unsigned_range, push_char, push_decimal, push_text, split_on,
    split_once, split_ranges, string_of_range, trim, trim_range,
};

verus! {

/// `x` with its four bytes in the opposite order.
pub open spec fn swap_bytes32(x: u32) -> u32 {
    ((x % 0x100) * 0x1000000 + (x / 0x100 % 0x100) * 0x10000 + (x / 0x10000 % 0x100) * 0x100 + x
        / 0x1000000) as u32
}

/// `x` converted from the machine's byte order to big-endian (network) order, as `u32::to_be`
/// does: unchanged on a big-endian machine, byte-swapped on a little-endian one.
pub open spec fn to_network_spec(x: u32) -> u32 {
    match endianness() {
        Endian::Big => x,
        Endian::Little => swap_bytes32(x),
    }
}

/// Converts `x` to network byte order.
/// Calls `u32::to_be`; claims what its documentation says: no change on a big-endian machine,
/// the bytes swapped on a little-endian one.
#[verifier::external_body]
pub(crate) fn to_network_order(x: u32) -> (r: u32)
    ensures
        r == to_network_spec(x),
{
    x.to_be()
}

/// The text of one part of a dotted IPv4 address: one to three decimal digits, no leading
/// zero unless the part is a lone `0`, and a value below 256.
pub open spec fn octet_text(d: Seq<char>) -> bool {
    &&& 1 <= d.len() <= 3
    &&& all_digits(d)
    &&& !(d.len() > 1 && d[0] == '0')
    &&& decimal_value(d) < 256
}

/// The address, in host order, of four octets in the order written.
pub open spec fn octets_value(a: nat, b: nat, c: nat, d: nat) -> nat {
    ((a * 256 + b) * 256 + c) * 256 + d
}

/// The address, in host order, that the dotted text `s` writes (what `Ipv4Addr::from_str`
/// accepts: exactly four parts separated by dots, each an octet text).
pub open spec fn parse_ipv4(s: Seq<char>) -> Option<u32> {
    let f = split_on(s, '.');
    if f.len() == 4 && octet_text(f[0]) && octet_text(f[1]) && octet_text(f[2]) && octet_text(
        f[3],
    ) {
        Some(
            octets_value(
                decimal_value(f[0]),
                decimal_value(f[1]),
                decimal_value(f[2]),
                decimal_value(f[3]),
            ) as u32,
        )
    } else {
        None
    }
}

/// The first octet of a host-order address.
pub open spec fn first_octet(addr: u32) -> u32 {
    addr / 0x1000000
}

/// Whether a host-order address lies in 127.0.0.0/8 (`Ipv4Addr::is_loopback`).
pub open spec fn is_loopback_addr(addr: u32) -> bool {
    first_octet(addr) == 127
}

/// Whether the address written before any `/` of `spec`, once trimmed, is a loopback address.
pub open spec fn is_loopback_text(spec: Seq<char>) -> bool {
    match parse_ipv4(trim(split_on(spec, '/')[0])) {
        Some(addr) => is_loopback_addr(addr),
        None => false,
    }
}

/// The netmask, in host order, of a prefix length of at most 32.
pub open spec fn netmask(prefix: u32) -> u32 {
    if prefix == 0 {
        0
    } else {
        (0xffff_ffffu32 << ((32 - prefix) as u32)) as u32
    }
}

/// Why a CIDR text was refused, as a value of the model.
pub enum CidrFault {
    /// The address part, as written, is no dotted IPv4 address.
    BadAddress(Seq<char>),
    /// The prefix part, as written, is no unsigned 32-bit number.
    BadPrefix(Seq<char>),
    /// The prefix length is above 32.
    PrefixTooLong(u32),
}

/// Why a CIDR text was refused.
#[derive(Debug)]
pub enum CidrError {
    /// The address part, as written, is no dotted IPv4 address.
    InvalidIp(String),
    /// The prefix part, as written, is no unsigned 32-bit number.
    InvalidPrefix(String),
    /// The prefix length is above 32.
    PrefixOutOfRange(u32),
}

impl View for CidrError {
    type V = CidrFault;

    open spec fn view(&self) -> CidrFault {
        match self {
            CidrError::InvalidIp(s) => CidrFault::BadAddress(s@),
            CidrError::InvalidPrefix(s) => CidrFault::BadPrefix(s@),
            CidrError::PrefixOutOfRange(p) => CidrFault::PrefixTooLong(*p),
        }
    }
}

/// The address text and the optional prefix text of a CIDR text (split at its first `/`).
pub open spec fn cidr_parts(spec: Seq<char>) -> (Seq<char>, Option<Seq<char>>) {
    match split_once(spec, '/') {
        Some((a, p)) => (a, Some(p)),
        None => (spec, None),
    }
}

/// What a CIDR text denotes: the network address in host order (the written address with the
/// host bits cleared) and the prefix length, or why it is refused. Both parts are trimmed;
/// a missing prefix means 32.
pub open spec fn cidr_block(spec: Seq<char>) -> Result<(u32, u32), CidrFault> {
    let (a, p) = cidr_parts(spec);
    match parse_ipv4(trim(a)) {
        None => Err(CidrFault::BadAddress(a)),
        Some(addr) => {
            let prefix = match p {
                None => Some(32nat),
                Some(pt) => parse_unsigned(trim(pt), 0x1_0000_0000),
            };
            match prefix {
                None => Err(CidrFault::BadPrefix(p.unwrap())),
                Some(n) => if n > 32 {
                    Err(CidrFault::PrefixTooLong(n as u32))
                } else {
                    Ok(((addr & netmask(n as u32)) as u32, n as u32))
                },
            }
        },
    }
}

/// Whether the block `net/prefix` (host order) holds some address of 127.0.0.0/8: the top
/// bits that the prefix fixes (at most 8 of them) agree with 127.
pub open spec fn meets_loopback(net: u32, prefix: u32) -> bool {
    ((net ^ 0x7f00_0000u32) & netmask(prefix) & 0xff00_0000u32) == 0
}

/// Whether the address `addr` (host order) lies in the block `net/prefix`.
pub open spec fn in_block(addr: u32, net: u32, prefix: u32) -> bool {
    addr & netmask(prefix) == net
}

/// The key that the kernel map takes for a CIDR text: the network address in network byte
/// order, held in a native integer, and the prefix length.
pub open spec fn cidr_key(spec: Seq<char>) -> Result<(u32, u32), CidrFault> {
    match cidr_block(spec) {
        Ok((net, prefix)) => Ok((to_network_spec(net), prefix)),
        Err(e) => Err(e),
    }
}

/// The model of a parse result.
pub open spec fn cidr_result_view(r: Result<(u32, u32), CidrError>) -> Result<(u32, u32), CidrFault> {
    match r {
        Ok(v) => Ok(v),
        Err(e) => Err(e@),
    }
}

/// The value of the octet text `s[lo..hi]`, when it is one.
fn octet_in_range(s: &Vec<char>, lo: usize, hi: usize) -> (r: Option<u64>)
    requires
        lo <= hi <= s.len(),
    ensures
        r == (if octet_text(s@.subrange(lo as int, hi as int)) {
            Some(decimal_value(s@.subrange(lo as int, hi as int)) as u64)
        } else {
            None::<u64>
        }),
{
    let ghost t = s@.subrange(lo as int, hi as int);
    if hi - lo < 1 || hi - lo > 3 {
        return None;
    }
    assert(t[0] == s@[lo as int]);
    if hi - lo > 1 && s[lo] == '0' {
        return None;
    }
    digits_value(s, lo, hi, 255)
}

/// The host-order address that the dotted text `s[lo..hi]` writes, when it writes one.
pub fn parse_ipv4_range(s: &Vec<char>, lo: usize, hi: usize) -> (r: Option<u32>)
    requires
        lo <= hi <= s.len(),
    ensures
        r == parse_ipv4(s@.subrange(lo as int, hi as int)),
{
    let parts = split_ranges(s, lo, hi, '.');
    if parts.len() != 4 {
        return None;
    }
    let ghost f = split_on(s@.subrange(lo as int, hi as int), '.');
    assert(s@.subrange(parts[0].0 as int, parts[0].1 as int) == f[0]);
    assert(s@.subrange(parts[1].0 as int, parts[1].1 as int) == f[1]);
    assert(s@.subrange(parts[2].0 as int, parts[2].1 as int) == f[2]);
    assert(s@.subrange(parts[3].0 as int, parts[3].1 as int) == f[3]);
    let a = match octet_in_range(s, parts[0].0, parts[0].1) {
        Some(v) => v,
        None => return None,
    };
    let b = match octet_in_range(s, parts[1].0, parts[1].1) {
        Some(v) => v,
        None => return None,
    };
    let c = match octet_in_range(s, parts[2].0, parts[2].1) {
        Some(v) => v,
        None => return None,
    };
    let d = match octet_in_range(s, parts[3].0, parts[3].1) {
        Some(v) => v,
        None => return None,
    };
    assert(octets_value(a as nat, b as nat, c as nat, d as nat) < 0x1_0000_0000) by (nonlinear_arith)
        requires
            a < 256,
            b < 256,
            c < 256,
            d < 256,
    ;
    let v: u64 = ((a * 256 + b) * 256 + c) * 256 + d;
    Some(v as u32)
}

/// Whether the address written before any `/` of `spec`, once trimmed, is a loopback
/// address. Such a block is never blocked: it protects the agent's own panel.
pub fn is_loopback_spec(spec: &str) -> (b: bool)
    ensures
        b == is_loopback_text(spec@),
{
    let cs = chars_of(spec);
    let parts = split_ranges(&cs, 0, cs.len(), '/');
    assert(cs@.subrange(0, cs.len() as int) =~= spec@);
    let (a, z) = trim_range(&cs, parts[0].0, parts[0].1);
    match parse_ipv4_range(&cs, a, z) {
        Some(addr) => addr / 0x1000000 == 127,
        None => false,
    }
}

/// Reads `"1.2.3.4"` or `"1.2.3.0/24"` into the key of the kernel's longest-prefix-match map:
/// the network address (host bits cleared) in network byte order, held in a native integer,
/// and the prefix length. The address and the prefix are trimmed of white space; a missing
/// prefix means 32.
pub fn parse_cidr(spec: &str) -> (r: Result<(u32, u32), CidrError>)
    ensures
        cidr_result_view(r) == cidr_key(spec@),
{
    match parse_cidr_block(spec) {
        Ok((net, prefix)) => Ok((to_network_order(net), prefix)),
        Err(e) => Err(e),
    }
}

/// The netmask, in host order, of a prefix length of at most 32.
pub fn netmask_of(prefix: u32) -> (m: u32)
    requires
        prefix <= 32,
    ensures
        m == netmask(prefix),
{
    if prefix == 0 {
        0
    } else {
        0xffff_ffffu32 << (32 - prefix)
    }
}

/// Whether the block `net/prefix` (host order, at most 32 bits of prefix) holds some address
/// of 127.0.0.0/8.
pub fn block_meets_loopback(net: u32, prefix: u32) -> (b: bool)
    requires
        prefix <= 32,
    ensures
        b == meets_loopback(net, prefix),
{
    ((net ^ 0x7f00_0000u32) & netmask_of(prefix) & 0xff00_0000u32) == 0
}

/// Reads `"1.2.3.4"` or `"1.2.3.0/24"` into the block it denotes: the network address in host
/// order (host bits cleared) and the prefix length. The address and the prefix are trimmed
/// of white space; a missing prefix means 32.
pub fn parse_cidr_block(spec: &str) -> (r: Result<(u32, u32), CidrError>)
    ensures
        cidr_result_view(r) == cidr_block(spec@),
{
    let cs = chars_of(spec);
    let n = cs.len();
    assert(cs@.subrange(0, n as int) =~= spec@);
    let parts = split_ranges(&cs, 0, n, '/');
    let ghost fields = split_on(spec@, '/');
    let (ip_lo, ip_hi): (usize, usize) = (parts[0].0, parts[0].1);
    proof {
        if parts.len() > 1 {
            assert(cs@.subrange(parts[0].1 + 1, n as int) =~= spec@.skip(fields[0].len() as int + 1));
        } else {
            assert(cs@.subrange(ip_lo as int, ip_hi as int) =~= spec@);
        }
    }
    let (a, z) = trim_range(&cs, ip_lo, ip_hi);
    let host = match parse_ipv4_range(&cs, a, z) {
        Some(h) => h,
        None => return Err(CidrError::InvalidIp(string_of_range(&cs, ip_lo, ip_hi))),
    };
    let prefix: u32 = if parts.len() > 1 {
        let p_lo = ip_hi + 1;
        let (pa, pz) = trim_range(&cs, p_lo, n);
        match parse_unsigned_range(&cs, pa, pz, 0xffff_ffff) {
            Some(v) => v as u32,
            None => return Err(CidrError::InvalidPrefix(string_of_range(&cs, p_lo, n))),
        }
    } else {
        32
    };
    if prefix > 32 {
        return Err(CidrError::PrefixOutOfRange(prefix));
    }
    let net = host & netmask_of(prefix);
    Ok((net, prefix))
}


/// The message that the agent logs for a refused CIDR text.
pub open spec fn fault_message(f: CidrFault) -> Seq<char> {
    match f {
        CidrFault::BadAddress(t) => "IP invalida: "@ + t,
        CidrFault::BadPrefix(t) => "prefijo invalido: "@ + t,
        CidrFault::PrefixTooLong(n) => "prefijo fuera de rango (0-32): "@ + decimal_text(n as nat),
    }
}

impl CidrError {
    /// The message that the agent logs for this error.
    pub fn message(&self) -> (m: String)
        ensures
            m@ == fault_message(self@),
    {
        let mut m = String::new();
        match self {
            CidrError::InvalidIp(t) => {
                push_text(&mut m, "IP invalida: ");
                push_text(&mut m, t.as_str());
            },
            CidrError::InvalidPrefix(t) => {
                push_text(&mut m, "prefijo invalido: ");
                push_text(&mut m, t.as_str());
            },
            CidrError::PrefixOutOfRange(n) => {
                push_text(&mut m, "prefijo fuera de rango (0-32): ");
                push_decimal(&mut m, *n as u64);
            },
        }
        m
    }
}


/// Law: a CIDR text that is accepted denotes a network: its prefix length is at most 32 and
/// its address has no bit set outside the netmask.
pub proof fn law_cidr_block_is_network(spec: Seq<char>)
    requires
        cidr_block(spec) is Ok,
    ensures
        cidr_block(spec)->Ok_0.1 <= 32,
        cidr_block(spec)->Ok_0.0 & netmask(cidr_block(spec)->Ok_0.1) == cidr_block(spec)->Ok_0.0,
{
    let (net, p) = cidr_block(spec)->Ok_0;
    let (a, _) = cidr_parts(spec);
    let addr = parse_ipv4(trim(a))->Some_0;
    let m = netmask(p);
    assert(net == addr & m);
    assert((addr & m) & m == addr & m) by (bit_vector);
}

/// Law: converting to network byte order and back gives the value again, on either kind of
/// machine.
pub proof fn law_network_order_round_trip(x: u32)
    ensures
        to_network_spec(to_network_spec(x)) == x,
{
    let y = swap_bytes32(x);
    assert(swap_bytes32(y) == x) by (bit_vector)
        requires
            y == ((x % 0x100) * 0x1000000 + (x / 0x100 % 0x100) * 0x10000 + (x / 0x10000 % 0x100) * 0x100
                + x / 0x1000000) as u32,
    ;
}

} // verus!

verus! {

/// Law: `meets_loopback` is exact. A block (its host bits clear) meets 127.0.0.0/8 exactly
/// when some loopback address lies in it: when it does not, no loopback address lies in it,
/// and when it does, one does.
pub proof fn law_meets_loopback_exact(net: u32, prefix: u32, addr: u32)
    requires
        net & netmask(prefix) == net,
    ensures
        !meets_loopback(net, prefix) && is_loopback_addr(addr) ==> !in_block(addr, net, prefix),
        meets_loopback(net, prefix) ==> (is_loopback_addr((net & 0x00ff_ffffu32) | 0x7f00_0000u32)
            && in_block((net & 0x00ff_ffffu32) | 0x7f00_0000u32, net, prefix)),
{
    let m = netmask(prefix);
    assert(addr / 0x1000000 == addr >> 24u32) by (bit_vector);
    assert(is_loopback_addr(addr) && (addr & m) == net ==> ((net ^ 0x7f00_0000u32) & m
        & 0xff00_0000u32) == 0) by (bit_vector)
        requires
            is_loopback_addr(addr) ==> addr >> 24u32 == 127,
    ;
    let w = (net & 0x00ff_ffffu32) | 0x7f00_0000u32;
    assert(w / 0x1000000 == w >> 24u32) by (bit_vector);
    assert(w >> 24u32 == 127) by (bit_vector)
        requires
            w == (net & 0x00ff_ffffu32) | 0x7f00_0000u32,
    ;
    assert(((net ^ 0x7f00_0000u32) & m & 0xff00_0000u32) == 0 ==> (w & m) == net) by (bit_vector)
        requires
            w == (net & 0x00ff_ffffu32) | 0x7f00_0000u32,
            net & m == net,
    ;
}

} // verus!

verus! {

/// The dotted text of a host-order IPv4 address (`a.b.c.d`, each part in decimal).
pub open spec fn ipv4_text(addr: u32) -> Seq<char> {
    decimal_text(first_octet(addr) as nat) + seq!['.'] + decimal_text((addr / 0x10000 % 0x100) as nat)
        + seq!['.'] + decimal_text((addr / 0x100 % 0x100) as nat) + seq!['.'] + decimal_text(
        (addr % 0x100) as nat,
    )
}

/// The dotted text of a host-order IPv4 address, as `Ipv4Addr` displays it.
pub fn ipv4_to_text(addr: u32) -> (s: String)
    ensures
        s@ == ipv4_text(addr),
{
    let mut s = String::new();
    push_decimal(&mut s, (addr / 0x1000000) as u64);
    push_char(&mut s, '.');
    push_decimal(&mut s, (addr / 0x10000 % 0x100) as u64);
    push_char(&mut s, '.');
    push_decimal(&mut s, (addr / 0x100 % 0x100) as u64);
    push_char(&mut s, '.');
    push_decimal(&mut s, (addr % 0x100) as u64);
    assert(s@ =~= ipv4_text(addr));
    s
}

} // verus!

verus! {

/// The canonical text of a block: its dotted network address, `/`, and its prefix in decimal.
pub open spec fn canonical_text(net: u32, prefix: u32) -> Seq<char> {
    ipv4_text(net) + seq!['/'] + decimal_text(prefix as nat)
}

/// Whether every character of `s` is a decimal digit or a dot.
pub open spec fn dotted_chars(s: Seq<char>) -> bool {
    forall|i: int| 0 <= i < s.len() ==> is_digit(#[trigger] s[i]) || s[i] == '.'
}

proof fn lemma_dotted_join(a: Seq<char>, b: Seq<char>)
    requires
        dotted_chars(a),
        dotted_chars(b),
    ensures
        dotted_chars(a + b),
{
    assert forall|i: int| 0 <= i < (a + b).len() implies is_digit(#[trigger] (a + b)[i]) || (a
        + b)[i] == '.' by {
        if i < a.len() {
            assert((a + b)[i] == a[i]);
        } else {
            assert((a + b)[i] == b[i - a.len()]);
        }
    }
}

proof fn lemma_octet_decimal(o: nat)
    requires
        o < 256,
    ensures
        octet_text(decimal_text(o)),
        decimal_value(decimal_text(o)) == o,
        dotted_chars(decimal_text(o)),
        forall|i: int| 0 <= i < decimal_text(o).len() ==> #[trigger] decimal_text(o)[i] != '.',
{
    lemma_decimal_text(o);
}

/// The dotted text of an address reads back as that address, and holds only digits and dots.
pub proof fn lemma_ipv4_text_reads_back(addr: u32)
    ensures
        parse_ipv4(ipv4_text(addr)) == Some(addr),
        dotted_chars(ipv4_text(addr)),
        ipv4_text(addr).len() > 0,
        is_digit(ipv4_text(addr)[0]),
        is_digit(ipv4_text(addr).last()),
{
    let o0 = (addr / 0x1000000) as nat;
    let o1 = (addr / 0x10000 % 0x100) as nat;
    let o2 = (addr / 0x100 % 0x100) as nat;
    let o3 = (addr % 0x100) as nat;
    let d0 = decimal_text(o0);
    let d1 = decimal_text(o1);
    let d2 = decimal_text(o2);
    let d3 = decimal_text(o3);
    lemma_octet_decimal(o0);
    lemma_octet_decimal(o1);
    lemma_octet_decimal(o2);
    lemma_octet_decimal(o3);
    let dot = seq!['.'];
    lemma_split_on_no_sep(d0, '.');
    lemma_split_on_no_sep(d1, '.');
    lemma_split_on_no_sep(d2, '.');
    lemma_split_on_no_sep(d3, '.');
    lemma_split_on_join(d0, d1, '.');
    lemma_split_on_join(d0 + dot + d1, d2, '.');
    lemma_split_on_join(d0 + dot + d1 + dot + d2, d3, '.');
    let f = split_on(ipv4_text(addr), '.');
    assert(ipv4_text(addr) == d0 + dot + d1 + dot + d2 + dot + d3);
    assert(f =~= seq![d0, d1, d2, d3]);
    assert(octets_value(o0, o1, o2, o3) == addr) by {
        assert(((addr / 0x1000000 * 256 + addr / 0x10000 % 0x100) * 256 + addr / 0x100 % 0x100)
            * 256 + addr % 0x100 == addr) by (bit_vector);
    }
    assert(dotted_chars(dot));
    lemma_dotted_join(d0, dot);
    lemma_dotted_join(d0 + dot, d1);
    lemma_dotted_join(d0 + dot + d1, dot);
    lemma_dotted_join(d0 + dot + d1 + dot, d2);
    lemma_dotted_join(d0 + dot + d1 + dot + d2, dot);
    lemma_dotted_join(d0 + dot + d1 + dot + d2 + dot, d3);
    assert(ipv4_text(addr)[0] == d0[0]);
    assert(ipv4_text(addr).last() == d3.last());
    assert(is_digit(d0[0]));
    assert(is_digit(d3[d3.len() - 1]));
}

/// Law: the canonical text of a block (its host bits clear, a prefix of at most 32) reads
/// back as that block, and as the map key of that block.
pub proof fn law_canonical_text_reads_back(net: u32, prefix: u32)
    requires
        prefix <= 32,
        net & netmask(prefix) == net,
    ensures
        cidr_block(canonical_text(net, prefix)) == Ok::<(u32, u32), CidrFault>((net, prefix)),
        cidr_key(canonical_text(net, prefix)) == Ok::<(u32, u32), CidrFault>(
            (to_network_spec(net), prefix),
        ),
{
    let a = ipv4_text(net);
    let d = decimal_text(prefix as nat);
    let s = canonical_text(net, prefix);
    lemma_ipv4_text_reads_back(net);
    lemma_decimal_text(prefix as nat);
    assert forall|i: int| 0 <= i < a.len() implies a[i] != '/' by {
        assert(is_digit(a[i]) || a[i] == '.');
    }
    assert forall|i: int| 0 <= i < d.len() implies d[i] != '/' by {
        assert(is_digit(d[i]));
    }
    lemma_split_on_no_sep(a, '/');
    lemma_split_on_no_sep(d, '/');
    lemma_split_on_join(a, d, '/');
    assert(split_on(s, '/') =~= seq![a, d]);
    assert(s.skip(a.len() as int + 1) =~= d);
    assert(cidr_parts(s) == (a, Some(d)));
    assert(is_digit(d[0]));
    assert(is_digit(d[d.len() - 1]));
    lemma_trim_no_white_ends(a);
    lemma_trim_no_white_ends(d);
    assert(parse_unsigned(d, 0x1_0000_0000) == Some(prefix as nat));
}

/// Law: every accepted CIDR text denotes a key whose canonical text (the dotted network with
/// its prefix) reads back as the same key.
pub proof fn law_parsed_key_is_fixed_point(spec: Seq<char>)
    requires
        cidr_key(spec) is Ok,
    ensures
        cidr_key(
            canonical_text(to_network_spec(cidr_key(spec)->Ok_0.0), cidr_key(spec)->Ok_0.1),
        ) == cidr_key(spec),
{
    law_cidr_block_is_network(spec);
    let (net, p) = cidr_block(spec)->Ok_0;
    law_network_order_round_trip(net);
    law_canonical_text_reads_back(net, p);
}

} // verus!

verus! {

/// Law: the netmask of a prefix length has exactly its top `prefix` bits set: none for 0, all
/// for 32, and otherwise the complement of all ones shifted right by the prefix length (for
/// example, 20 gives 0xffff_f000).
pub proof fn law_netmask_top_bits(prefix: u32)
    requires
        prefix <= 32,
    ensures
        prefix == 0 ==> netmask(prefix) == 0,
        prefix == 32 ==> netmask(prefix) == 0xffff_ffffu32,
        0 < prefix < 32 ==> netmask(prefix) == !(0xffff_ffffu32 >> prefix),
{
    if 0 < prefix < 32 {
        assert((0xffff_ffffu32 << ((32 - prefix) as u32)) == !(0xffff_ffffu32 >> prefix))
            by (bit_vector)
            requires
                0 < prefix < 32,
        ;
    }
    if prefix == 32 {
        assert((0xffff_ffffu32 << 0u32) == 0xffff_ffffu32) by (bit_vector);
    }
}

/// Law: the network of an accepted CIDR text keeps every bit of the written address above the
/// prefix and clears the bits below it: the whole address for a prefix of 32, nothing for 0,
/// and otherwise the address with its low `32 - prefix` bits cleared.
pub proof fn law_block_keeps_prefix_bits(spec: Seq<char>)
    requires
        cidr_block(spec) is Ok,
    ensures
        parse_ipv4(trim(cidr_parts(spec).0)) is Some,
        ({
            let addr = parse_ipv4(trim(cidr_parts(spec).0))->Some_0;
            let (net, p) = cidr_block(spec)->Ok_0;
            &&& p <= 32
            &&& p == 32 ==> net == addr
            &&& p == 0 ==> net == 0
            &&& 0 < p < 32 ==> net == addr & !(0xffff_ffffu32 >> p)
        }),
{
    let addr = parse_ipv4(trim(cidr_parts(spec).0))->Some_0;
    let (net, p) = cidr_block(spec)->Ok_0;
    law_netmask_top_bits(p);
    assert(addr & 0xffff_ffffu32 == addr) by (bit_vector);
    assert(addr & 0u32 == 0) by (bit_vector);
}

} // verus!
