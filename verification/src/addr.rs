//! Socket addresses (IPv4 or IPv6) of the peers that take part in a
//! distribution: their text, as written and as read, and their order.

use vstd::prelude::*;
use vstd::string::StringSliceAdditionalSpecFns;
use vstd::utf8::{encode_utf8, is_ascii_chars};

verus! {

/// An IPv4 address, octet by octet.
#[derive(Clone, Copy, Debug, PartialEq, Eq, Hash, Structural)]
pub struct Ipv4 {
    pub a: u8,
    pub b: u8,
    pub c: u8,
    pub d: u8,
}

/// An IPv6 address, as its eight 16-bit segments, most significant first.
#[derive(Clone, Copy, Debug, PartialEq, Eq, Hash, Structural)]
pub struct Ipv6 {
    pub s0: u16,
    pub s1: u16,
    pub s2: u16,
    pub s3: u16,
    pub s4: u16,
    pub s5: u16,
    pub s6: u16,
    pub s7: u16,
}

impl Ipv6 {
    /// The eight segments in order.
    pub open spec fn segs(self) -> Seq<u16> {
        seq![self.s0, self.s1, self.s2, self.s3, self.s4, self.s5, self.s6, self.s7]
    }

    /// The eight segments in order.
    pub fn segments(&self) -> (r: Vec<u16>)
        ensures
            r@ == self.segs(),
    {
        let mut r = Vec::new();
        r.push(self.s0);
        r.push(self.s1);
        r.push(self.s2);
        r.push(self.s3);
        r.push(self.s4);
        r.push(self.s5);
        r.push(self.s6);
        r.push(self.s7);
        assert(r@ =~= self.segs());
        r
    }
}

/// The IPv6 address with segments `g`.
pub open spec fn ipv6_of(g: Seq<u16>) -> Ipv6 {
    Ipv6 { s0: g[0], s1: g[1], s2: g[2], s3: g[3], s4: g[4], s5: g[5], s6: g[6], s7: g[7] }
}

fn ipv6_from(g: &Vec<u16>) -> (r: Ipv6)
    requires
        g@.len() == 8,
    ensures
        r == ipv6_of(g@),
{
    Ipv6 { s0: g[0], s1: g[1], s2: g[2], s3: g[3], s4: g[4], s5: g[5], s6: g[6], s7: g[7] }
}

/// A socket address: an IPv4 address and a port, or an IPv6 address, a
/// port, a flow label and a scope.
#[derive(Clone, Copy, Debug, PartialEq, Eq, Hash, Structural)]
#[allow(inconsistent_fields)]
pub enum PeerAddr {
    V4 { ip: Ipv4, port: u16 },
    V6 { ip: Ipv6, port: u16, flowinfo: u32, scope_id: u32 },
}

impl PeerAddr {
    pub open spec fn spec_port(&self) -> u16 {
        match *self {
            PeerAddr::V4 { port, .. } => port,
            PeerAddr::V6 { port, .. } => port,
        }
    }

    /// The same IP address at `port`, with no flow label and no scope.
    pub open spec fn spec_with_port(&self, port: u16) -> PeerAddr {
        match *self {
            PeerAddr::V4 { ip, .. } => PeerAddr::V4 { ip, port },
            PeerAddr::V6 { ip, .. } => PeerAddr::V6 { ip, port, flowinfo: 0, scope_id: 0 },
        }
    }

    /// The port.
    #[verifier::when_used_as_spec(spec_port)]
    pub fn port(&self) -> (r: u16)
        ensures
            r == self.spec_port(),
    {
        match self {
            PeerAddr::V4 { port, .. } => *port,
            PeerAddr::V6 { port, .. } => *port,
        }
    }

    /// The same IP address at `port`, with no flow label and no scope.
    #[verifier::when_used_as_spec(spec_with_port)]
    pub fn with_port(&self, port: u16) -> (r: PeerAddr)
        ensures
            r == self.spec_with_port(port),
    {
        match self {
            PeerAddr::V4 { ip, .. } => PeerAddr::V4 { ip: *ip, port },
            PeerAddr::V6 { ip, .. } => PeerAddr::V6 { ip: *ip, port, flowinfo: 0, scope_id: 0 },
        }
    }

    /// The address `a.b.c.d:port`.
    pub fn v4(a: u8, b: u8, c: u8, d: u8, port: u16) -> (r: PeerAddr)
        ensures
            r == (PeerAddr::V4 { ip: Ipv4 { a, b, c, d }, port }),
    {
        PeerAddr::V4 { ip: Ipv4 { a, b, c, d }, port }
    }

    /// The IPv6 address with segments `g` at `port`, in scope `scope_id`,
    /// with no flow label.
    pub fn v6(g: [u16; 8], port: u16, scope_id: u32) -> (r: PeerAddr)
        ensures
            r == (PeerAddr::V6 { ip: ipv6_of(g@), port, flowinfo: 0, scope_id }),
    {
        let ip = Ipv6 { s0: g[0], s1: g[1], s2: g[2], s3: g[3], s4: g[4], s5: g[5], s6: g[6], s7: g[7] };
        PeerAddr::V6 { ip, port, flowinfo: 0, scope_id }
    }
}

/// The character of decimal digit `d`.
pub open spec fn digit_char(d: int) -> char {
    (d + 48) as char
}

/// The decimal text of `n`, without leading zeros.
pub open spec fn decimal(n: nat) -> Seq<char>
    decreases n,
{
    if n < 10 {
        seq![digit_char(n as int)]
    } else {
        decimal(n / 10).push(digit_char((n % 10) as int))
    }
}

/// The text of an IPv4 address, `a.b.c.d`.
pub open spec fn ipv4_text(ip: Ipv4) -> Seq<char> {
    decimal(ip.a as nat) + seq!['.'] + decimal(ip.b as nat) + seq!['.'] + decimal(ip.c as nat) + seq!['.']
        + decimal(ip.d as nat)
}

/// The text of an address: `a.b.c.d:port` for IPv4; for IPv6 the address
/// in brackets, with `%scope` inside them when the scope is not zero, then
/// `:port`. The flow label is not shown.
pub open spec fn addr_text(a: PeerAddr) -> Seq<char> {
    match a {
        PeerAddr::V4 { ip, port } => ipv4_text(ip) + seq![':'] + decimal(port as nat),
        PeerAddr::V6 { ip, port, scope_id, .. } => seq!['['] + ipv6_text(ip) + (if scope_id == 0 {
            Seq::<char>::empty()
        } else {
            seq!['%'] + decimal(scope_id as nat)
        }) + seq![']', ':'] + decimal(port as nat),
    }
}

pub open spec fn is_digit(b: u8) -> bool {
    48 <= b <= 57
}

pub open spec fn all_digits(s: Seq<u8>) -> bool {
    forall|i: int| 0 <= i < s.len() ==> is_digit(#[trigger] s[i])
}

/// The number that a run of decimal digits denotes.
pub open spec fn digits_value(s: Seq<u8>) -> nat
    decreases s.len(),
{
    if s.len() == 0 {
        0
    } else {
        digits_value(s.drop_last()) * 10 + (s.last() - 48) as nat
    }
}

/// One to three digits, without a leading zero, worth at most 255.
pub open spec fn octet_text(s: Seq<u8>) -> bool {
    &&& 1 <= s.len() <= 3
    &&& all_digits(s)
    &&& s.len() > 1 ==> s[0] != 48
    &&& digits_value(s) <= 255
}

/// At least one digit, leading zeros allowed, worth at most 65535.
pub open spec fn port_text(s: Seq<u8>) -> bool {
    &&& s.len() >= 1
    &&& all_digits(s)
    &&& digits_value(s) <= 65535
}

/// `s` reads `a.b.c.d:port` with the three dots at `i1`, `i2`, `i3` and the
/// colon at `i4`.
pub open spec fn addr_fields_at(s: Seq<u8>, i1: int, i2: int, i3: int, i4: int) -> bool {
    &&& 0 <= i1 < i2 < i3 < i4 < s.len()
    &&& s[i1] == 46 && s[i2] == 46 && s[i3] == 46 && s[i4] == 58
    &&& octet_text(s.subrange(0, i1))
    &&& octet_text(s.subrange(i1 + 1, i2))
    &&& octet_text(s.subrange(i2 + 1, i3))
    &&& octet_text(s.subrange(i3 + 1, i4))
    &&& port_text(s.subrange(i4 + 1, s.len() as int))
}

pub open spec fn addr_at(s: Seq<u8>, i1: int, i2: int, i3: int, i4: int) -> PeerAddr {
    PeerAddr::V4 {
        ip: Ipv4 {
            a: digits_value(s.subrange(0, i1)) as u8,
            b: digits_value(s.subrange(i1 + 1, i2)) as u8,
            c: digits_value(s.subrange(i2 + 1, i3)) as u8,
            d: digits_value(s.subrange(i3 + 1, i4)) as u8,
        },
        port: digits_value(s.subrange(i4 + 1, s.len() as int)) as u16,
    }
}

/// The IPv4 socket address that the text `s` (as bytes) denotes, if it is
/// one.
pub open spec fn parse_v4(s: Seq<u8>) -> Option<PeerAddr> {
    if exists|i1: int, i2: int, i3: int, i4: int| addr_fields_at(s, i1, i2, i3, i4) {
        let (i1, i2, i3, i4) = choose|i1: int, i2: int, i3: int, i4: int| addr_fields_at(s, i1, i2, i3, i4);
        Some(addr_at(s, i1, i2, i3, i4))
    } else {
        None
    }
}

/// `e` ends the run of digits that starts at `start`.
pub open spec fn run_end(s: Seq<u8>, start: int, e: int) -> bool {
    &&& 0 <= start <= e <= s.len()
    &&& forall|j: int| start <= j < e ==> is_digit(#[trigger] s[j])
    &&& e == s.len() || !is_digit(s[e])
}

proof fn lemma_run_unique(s: Seq<u8>, start: int, e: int, f: int)
    requires
        run_end(s, start, e),
        run_end(s, start, f),
    ensures
        e == f,
{
    if e < f {
        assert(is_digit(s[e]));
    }
    if f < e {
        assert(is_digit(s[f]));
    }
}

/// The fields of an address each end where their digits end.
proof fn lemma_fields_forced(s: Seq<u8>, i1: int, i2: int, i3: int, i4: int)
    requires
        addr_fields_at(s, i1, i2, i3, i4),
    ensures
        run_end(s, 0, i1),
        run_end(s, i1 + 1, i2),
        run_end(s, i2 + 1, i3),
        run_end(s, i3 + 1, i4),
        run_end(s, i4 + 1, s.len() as int),
{
    assert forall|j: int| 0 <= j < i1 implies is_digit(#[trigger] s[j]) by {
        assert(s.subrange(0, i1)[j] == s[j]);
    }
    assert forall|j: int| i1 + 1 <= j < i2 implies is_digit(#[trigger] s[j]) by {
        assert(s.subrange(i1 + 1, i2)[j - i1 - 1] == s[j]);
    }
    assert forall|j: int| i2 + 1 <= j < i3 implies is_digit(#[trigger] s[j]) by {
        assert(s.subrange(i2 + 1, i3)[j - i2 - 1] == s[j]);
    }
    assert forall|j: int| i3 + 1 <= j < i4 implies is_digit(#[trigger] s[j]) by {
        assert(s.subrange(i3 + 1, i4)[j - i3 - 1] == s[j]);
    }
    assert forall|j: int| i4 + 1 <= j < s.len() implies is_digit(#[trigger] s[j]) by {
        assert(s.subrange(i4 + 1, s.len() as int)[j - i4 - 1] == s[j]);
    }
}

pub open spec fn has_fields(s: Seq<u8>) -> bool {
    exists|i1: int, i2: int, i3: int, i4: int| addr_fields_at(s, i1, i2, i3, i4)
}

proof fn choose_fields(s: Seq<u8>) -> (r: (int, int, int, int))
    requires
        has_fields(s),
    ensures
        addr_fields_at(s, r.0, r.1, r.2, r.3),
        run_end(s, 0, r.0),
        run_end(s, r.0 + 1, r.1),
        run_end(s, r.1 + 1, r.2),
        run_end(s, r.2 + 1, r.3),
        run_end(s, r.3 + 1, s.len() as int),
{
    let (i1, i2, i3, i4) = choose|i1: int, i2: int, i3: int, i4: int| addr_fields_at(s, i1, i2, i3, i4);
    lemma_fields_forced(s, i1, i2, i3, i4);
    (i1, i2, i3, i4)
}

/// Where the run of decimal digits that starts at `i` ends.
pub open spec fn digit_run_end(s: Seq<u8>, i: int) -> int
    decreases s.len() - i,
{
    if 0 <= i < s.len() && is_digit(s[i]) {
        digit_run_end(s, i + 1)
    } else {
        i
    }
}

/// End of the run of digits that starts at `start`.
fn digit_run(b: &[u8], start: usize) -> (end: usize)
    requires
        start <= b@.len(),
    ensures
        start <= end <= b@.len(),
        end == digit_run_end(b@, start as int),
        forall|j: int| start <= j < end ==> is_digit(#[trigger] b@[j]),
        end == b@.len() || !is_digit(b@[end as int]),
{
    let mut i = start;
    while i < b.len() && 48 <= b[i] && b[i] <= 57
        invariant
            start <= i <= b@.len(),
            digit_run_end(b@, start as int) == digit_run_end(b@, i as int),
            forall|j: int| start <= j < i ==> is_digit(#[trigger] b@[j]),
        decreases b@.len() - i,
    {
        i += 1;
    }
    i
}

/// The value of the digits `b[start..end]`, or `None` once it exceeds `limit`.
fn digits_value_upto(b: &[u8], start: usize, end: usize, limit: u64) -> (r: Option<u64>)
    requires
        start <= end <= b@.len(),
        forall|j: int| start <= j < end ==> is_digit(#[trigger] b@[j]),
        limit <= 0xffff_ffff,
    ensures
        match r {
            Some(v) => v == digits_value(b@.subrange(start as int, end as int)) && v <= limit,
            None => digits_value(b@.subrange(start as int, end as int)) > limit,
        },
{
    let mut v: u64 = 0;
    let mut i = start;
    while i < end
        invariant
            start <= i <= end <= b@.len(),
            forall|j: int| start <= j < end ==> is_digit(#[trigger] b@[j]),
            limit <= 0xffff_ffff,
            v == digits_value(b@.subrange(start as int, i as int)),
            v <= limit,
        decreases end - i,
    {
        assert(b@.subrange(start as int, i + 1).drop_last() =~= b@.subrange(start as int, i as int));
        assert(is_digit(b@[i as int]));
        v = v * 10 + (b[i] - 48) as u64;
        i += 1;
        if v > limit {
            proof {
                lemma_digits_value_grows(b@.subrange(start as int, end as int), i - start);
                assert(b@.subrange(start as int, end as int).take(i - start) =~= b@.subrange(start as int, i as int));
            }
            return None;
        }
    }
    Some(v)
}

/// A longer run of digits is worth at least as much as its prefix.
proof fn lemma_digits_value_grows(s: Seq<u8>, k: int)
    requires
        0 <= k <= s.len(),
        all_digits(s),
    ensures
        digits_value(s.take(k)) <= digits_value(s),
    decreases s.len(),
{
    if k < s.len() {
        assert(s.drop_last().take(k) =~= s.take(k));
        lemma_digits_value_grows(s.drop_last(), k);
    } else {
        assert(s.take(k) =~= s);
    }
}

/// The octet written at `pos`: the whole run of digits there, one to three
/// of them, without a leading zero, worth at most 255; and where it ends.
pub open spec fn octet_at(s: Seq<u8>, pos: int) -> Option<(u8, int)> {
    let e = digit_run_end(s, pos);
    if octet_text(s.subrange(pos, e)) {
        Some((digits_value(s.subrange(pos, e)) as u8, e))
    } else {
        None
    }
}

/// Reads an octet at `start`, up to the end of its digits.
fn read_octet(b: &[u8], start: usize) -> (r: Option<(u8, usize)>)
    requires
        start <= b@.len(),
    ensures
        match r {
            Some((v, end)) => start < end && run_end(b@, start as int, end as int)
                && octet_text(b@.subrange(start as int, end as int))
                && v == digits_value(b@.subrange(start as int, end as int)),
            None => forall|end: int| #[trigger] run_end(b@, start as int, end) ==> !octet_text(b@.subrange(start as int, end)),
        },
        match r {
            Some((v, end)) => octet_at(b@, start as int) == Some((v, end as int)),
            None => octet_at(b@, start as int) is None,
        },
{
    let end = digit_run(b, start);
    proof {
        assert forall|e: int| #[trigger] run_end(b@, start as int, e) implies e == end by {
            lemma_run_unique(b@, start as int, e, end as int);
        }
    }
    if end == start || end - start > 3 {
        return None;
    }
    if end - start > 1 && b[start] == 48 {
        assert(b@.subrange(start as int, end as int)[0] == 48);
        return None;
    }
    match digits_value_upto(b, start, end, 255) {
        Some(v) => {
            assert(all_digits(b@.subrange(start as int, end as int)));
            Some((v as u8, end))
        },
        None => None,
    }
}

/// Whether byte `pos` of `s` is there and is `c`.
pub open spec fn byte_at(s: Seq<u8>, pos: int, c: u8) -> bool {
    0 <= pos < s.len() && s[pos] == c
}

/// The octet after a dot at `pos`, and where it ends.
pub open spec fn dot_octet_at(s: Seq<u8>, pos: int) -> Option<(u8, int)> {
    if byte_at(s, pos, 46) {
        octet_at(s, pos + 1)
    } else {
        None
    }
}

/// The IPv4 address `a.b.c.d` written at `pos`, and where it ends.
pub open spec fn ipv4_at(s: Seq<u8>, pos: int) -> Option<(Ipv4, int)> {
    match octet_at(s, pos) {
        None => None,
        Some((a, e1)) => match dot_octet_at(s, e1) {
            None => None,
            Some((b, e2)) => match dot_octet_at(s, e2) {
                None => None,
                Some((c, e3)) => match dot_octet_at(s, e3) {
                    None => None,
                    Some((d, e4)) => Some((Ipv4 { a, b, c, d }, e4)),
                },
            },
        },
    }
}

pub open spec fn is_hex_digit(b: u8) -> bool {
    is_digit(b) || (97 <= b <= 102) || (65 <= b <= 70)
}

pub open spec fn hex_digit_value(b: u8) -> nat {
    if is_digit(b) {
        (b - 48) as nat
    } else if 97 <= b <= 102 {
        (b - 87) as nat
    } else {
        (b - 55) as nat
    }
}

/// The number that a run of hexadecimal digits denotes.
pub open spec fn hex_value(s: Seq<u8>) -> nat
    decreases s.len(),
{
    if s.len() == 0 {
        0
    } else {
        hex_value(s.drop_last()) * 16 + hex_digit_value(s.last())
    }
}

/// Where the run of hexadecimal digits that starts at `i` ends.
pub open spec fn hex_run_end(s: Seq<u8>, i: int) -> int
    decreases s.len() - i,
{
    if 0 <= i < s.len() && is_hex_digit(s[i]) {
        hex_run_end(s, i + 1)
    } else {
        i
    }
}

/// The IPv6 group written at `pos`: the whole run of hexadecimal digits
/// there, one to four of them, either case; and where it ends.
pub open spec fn group_at(s: Seq<u8>, pos: int) -> Option<(u16, int)> {
    let e = hex_run_end(s, pos);
    if pos < e <= pos + 4 {
        Some((hex_value(s.subrange(pos, e)) as u16, e))
    } else {
        None
    }
}

/// Group `i` of a run of groups at `pos`: every group but the first comes
/// after a colon.
pub open spec fn sep_group_at(s: Seq<u8>, pos: int, i: nat) -> Option<(u16, int)> {
    if i == 0 {
        group_at(s, pos)
    } else if byte_at(s, pos, 58) {
        group_at(s, pos + 1)
    } else {
        None
    }
}

/// An embedded IPv4 address in place of group `i` at `pos`.
pub open spec fn sep_ipv4_at(s: Seq<u8>, pos: int, i: nat) -> Option<(Ipv4, int)> {
    if i == 0 {
        ipv4_at(s, pos)
    } else if byte_at(s, pos, 58) {
        ipv4_at(s, pos + 1)
    } else {
        None
    }
}

/// The two groups that an embedded IPv4 address stands for.
pub open spec fn ipv4_segments(ip: Ipv4) -> Seq<u16> {
    seq![(ip.a * 256 + ip.b) as u16, (ip.c * 256 + ip.d) as u16]
}

/// Reads groups `i`, `i + 1`, ... below `limit` at `pos`, as many as are
/// there; where at least two groups are left an IPv4 address may stand for
/// the last two. Gives the groups read, whether they end with an IPv4
/// address, and where they end.
pub open spec fn groups_from(s: Seq<u8>, pos: int, i: nat, limit: nat) -> (Seq<u16>, bool, int)
    decreases limit - i,
{
    if i >= limit {
        (Seq::empty(), false, pos)
    } else if i + 1 < limit && sep_ipv4_at(s, pos, i) is Some {
        let (ip, e) = sep_ipv4_at(s, pos, i).unwrap();
        (ipv4_segments(ip), true, e)
    } else {
        match sep_group_at(s, pos, i) {
            None => (Seq::empty(), false, pos),
            Some((g, e)) => {
                let rest = groups_from(s, e, i + 1, limit);
                (seq![g] + rest.0, rest.1, rest.2)
            },
        }
    }
}

/// `n` zero groups.
pub open spec fn zero_groups(n: int) -> Seq<u16> {
    Seq::new(n as nat, |k: int| 0u16)
}

/// The IPv6 address written at `pos`, and where it ends: eight groups; or
/// fewer, then `::` (not after an embedded IPv4 address), then at most
/// seven minus that many, the `::` standing for the zero groups between.
pub open spec fn ipv6_at(s: Seq<u8>, pos: int) -> Option<(Ipv6, int)> {
    let head = groups_from(s, pos, 0, 8);
    if head.0.len() == 8 {
        Some((ipv6_of(head.0), head.2))
    } else if head.1 {
        None
    } else if byte_at(s, head.2, 58) && byte_at(s, head.2 + 1, 58) {
        let tail = groups_from(s, head.2 + 2, 0, (7 - head.0.len()) as nat);
        Some((ipv6_of(head.0 + zero_groups(8 - head.0.len() - tail.0.len()) + tail.0), tail.2))
    } else {
        None
    }
}

/// The scope `%n` written at `pos`, at most `u32::MAX`, and where it ends.
pub open spec fn scope_at(s: Seq<u8>, pos: int) -> Option<(u32, int)> {
    if byte_at(s, pos, 37) {
        let e = digit_run_end(s, pos + 1);
        let v = digits_value(s.subrange(pos + 1, e));
        if pos + 1 < e && v <= 0xffff_ffff {
            Some((v as u32, e))
        } else {
            None
        }
    } else {
        None
    }
}

/// The IPv6 socket address that the text `s` (as bytes) denotes, if it is
/// one: `[`, an IPv6 address, an optional scope, `]:`, then a port (at
/// least one digit, leading zeros allowed, at most 65535) and nothing else.
pub open spec fn parse_v6(s: Seq<u8>) -> Option<PeerAddr> {
    if byte_at(s, 0, 91) {
        match ipv6_at(s, 1) {
            None => None,
            Some((ip, e)) => {
                let sc = match scope_at(s, e) {
                    Some((v, e2)) => (v, e2),
                    None => (0u32, e),
                };
                if byte_at(s, sc.1, 93) && byte_at(s, sc.1 + 1, 58) && port_text(s.subrange(sc.1 + 2, s.len() as int)) {
                    Some(
                        PeerAddr::V6 {
                            ip,
                            port: digits_value(s.subrange(sc.1 + 2, s.len() as int)) as u16,
                            flowinfo: 0,
                            scope_id: sc.0,
                        },
                    )
                } else {
                    None
                }
            },
        }
    } else {
        None
    }
}

/// The socket address that the text `s` (as bytes) denotes, IPv4 or IPv6,
/// if it is one.
pub open spec fn parse_addr(s: Seq<u8>) -> Option<PeerAddr> {
    match parse_v4(s) {
        Some(a) => Some(a),
        None => parse_v6(s),
    }
}

fn read_dot_octet(b: &[u8], pos: usize) -> (r: Option<(u8, usize)>)
    requires
        pos <= b@.len(),
    ensures
        match r {
            Some((v, e)) => dot_octet_at(b@, pos as int) == Some((v, e as int)) && e <= b@.len(),
            None => dot_octet_at(b@, pos as int) is None,
        },
{
    if pos < b.len() && b[pos] == 46 {
        read_octet(b, pos + 1)
    } else {
        None
    }
}

fn read_ipv4(b: &[u8], pos: usize) -> (r: Option<(Ipv4, usize)>)
    requires
        pos <= b@.len(),
    ensures
        match r {
            Some((ip, e)) => ipv4_at(b@, pos as int) == Some((ip, e as int)) && e <= b@.len(),
            None => ipv4_at(b@, pos as int) is None,
        },
{
    let (a, e1) = match read_octet(b, pos) {
        Some(x) => x,
        None => {
            return None;
        },
    };
    let (bb, e2) = match read_dot_octet(b, e1) {
        Some(x) => x,
        None => {
            return None;
        },
    };
    let (c, e3) = match read_dot_octet(b, e2) {
        Some(x) => x,
        None => {
            return None;
        },
    };
    let (d, e4) = match read_dot_octet(b, e3) {
        Some(x) => x,
        None => {
            return None;
        },
    };
    Some((Ipv4 { a, b: bb, c, d }, e4))
}

fn is_hex_byte(x: u8) -> (r: bool)
    ensures
        r == is_hex_digit(x),
{
    (48 <= x && x <= 57) || (97 <= x && x <= 102) || (65 <= x && x <= 70)
}

fn hex_run(b: &[u8], start: usize) -> (end: usize)
    requires
        start <= b@.len(),
    ensures
        start <= end <= b@.len(),
        end == hex_run_end(b@, start as int),
        forall|j: int| start <= j < end ==> is_hex_digit(#[trigger] b@[j]),
{
    let mut i = start;
    while i < b.len() && is_hex_byte(b[i])
        invariant
            start <= i <= b@.len(),
            hex_run_end(b@, start as int) == hex_run_end(b@, i as int),
            forall|j: int| start <= j < i ==> is_hex_digit(#[trigger] b@[j]),
        decreases b@.len() - i,
    {
        i += 1;
    }
    i
}

pub open spec fn pow16(n: nat) -> nat
    decreases n,
{
    if n == 0 {
        1
    } else {
        16 * pow16((n - 1) as nat)
    }
}

proof fn lemma_pow16()
    ensures
        pow16(0) == 1,
        pow16(1) == 16,
        pow16(2) == 256,
        pow16(3) == 4096,
        pow16(4) == 65536,
{
    assert(pow16(0) == 1);
    assert(pow16(1) == 16);
    assert(pow16(2) == 256);
    assert(pow16(3) == 4096);
    assert(pow16(4) == 65536);
}

fn read_group(b: &[u8], pos: usize) -> (r: Option<(u16, usize)>)
    requires
        pos <= b@.len(),
    ensures
        match r {
            Some((v, e)) => group_at(b@, pos as int) == Some((v, e as int)) && e <= b@.len(),
            None => group_at(b@, pos as int) is None,
        },
{
    let e = hex_run(b, pos);
    if e == pos || e - pos > 4 {
        return None;
    }
    let mut v: u32 = 0;
    let mut i = pos;
    proof {
        lemma_pow16();
    }
    while i < e
        invariant
            pos <= i <= e <= b@.len(),
            e - pos <= 4,
            forall|j: int| pos <= j < e ==> is_hex_digit(#[trigger] b@[j]),
            v == hex_value(b@.subrange(pos as int, i as int)),
            v < pow16((i - pos) as nat),
            pow16(0) == 1 && pow16(1) == 16 && pow16(2) == 256 && pow16(3) == 4096 && pow16(4) == 65536,
        decreases e - i,
    {
        assert(b@.subrange(pos as int, i + 1).drop_last() =~= b@.subrange(pos as int, i as int));
        assert(is_hex_digit(b@[i as int]));
        let x = b[i];
        let d: u32 = if x <= 57 {
            (x - 48) as u32
        } else if x >= 97 {
            (x - 87) as u32
        } else {
            (x - 55) as u32
        };
        assert(pow16((i + 1 - pos) as nat) == 16 * pow16((i - pos) as nat));
        v = v * 16 + d;
        i += 1;
    }
    Some((v as u16, e))
}

fn read_sep_group(b: &[u8], pos: usize, i: usize) -> (r: Option<(u16, usize)>)
    requires
        pos <= b@.len(),
    ensures
        match r {
            Some((v, e)) => sep_group_at(b@, pos as int, i as nat) == Some((v, e as int)) && e <= b@.len(),
            None => sep_group_at(b@, pos as int, i as nat) is None,
        },
{
    if i == 0 {
        read_group(b, pos)
    } else if pos < b.len() && b[pos] == 58 {
        read_group(b, pos + 1)
    } else {
        None
    }
}

fn read_sep_ipv4(b: &[u8], pos: usize, i: usize) -> (r: Option<(Ipv4, usize)>)
    requires
        pos <= b@.len(),
    ensures
        match r {
            Some((ip, e)) => sep_ipv4_at(b@, pos as int, i as nat) == Some((ip, e as int)) && e <= b@.len(),
            None => sep_ipv4_at(b@, pos as int, i as nat) is None,
        },
{
    if i == 0 {
        read_ipv4(b, pos)
    } else if pos < b.len() && b[pos] == 58 {
        read_ipv4(b, pos + 1)
    } else {
        None
    }
}

fn read_groups(b: &[u8], pos: usize, i: usize, limit: usize) -> (r: (Vec<u16>, bool, usize))
    requires
        pos <= b@.len(),
        i <= limit <= 8,
    ensures
        r.0@ == groups_from(b@, pos as int, i as nat, limit as nat).0,
        r.1 == groups_from(b@, pos as int, i as nat, limit as nat).1,
        r.2 as int == groups_from(b@, pos as int, i as nat, limit as nat).2,
        r.2 <= b@.len(),
        r.0@.len() <= limit - i,
    decreases limit - i,
{
    if i >= limit {
        return (Vec::new(), false, pos);
    }
    if i + 1 < limit {
        if let Some((ip, e)) = read_sep_ipv4(b, pos, i) {
            let mut g: Vec<u16> = Vec::new();
            g.push((ip.a as u16) * 256 + (ip.b as u16));
            g.push((ip.c as u16) * 256 + (ip.d as u16));
            assert(g@ =~= ipv4_segments(ip));
            return (g, true, e);
        }
    }
    match read_sep_group(b, pos, i) {
        None => (Vec::new(), false, pos),
        Some((g, e)) => {
            let (mut rest, four, end) = read_groups(b, e, i + 1, limit);
            let ghost rest_view = rest@;
            let mut out: Vec<u16> = Vec::new();
            out.push(g);
            out.append(&mut rest);
            assert(out@ =~= seq![g] + rest_view);
            (out, four, end)
        },
    }
}

fn read_ipv6(b: &[u8], pos: usize) -> (r: Option<(Ipv6, usize)>)
    requires
        pos <= b@.len(),
    ensures
        match r {
            Some((ip, e)) => ipv6_at(b@, pos as int) == Some((ip, e as int)) && e <= b@.len(),
            None => ipv6_at(b@, pos as int) is None,
        },
{
    let (head, head_v4, e) = read_groups(b, pos, 0, 8);
    if head.len() == 8 {
        return Some((ipv6_from(&head), e));
    }
    if head_v4 {
        return None;
    }
    if !(e < b.len() && e + 1 < b.len() && b[e] == 58 && b[e + 1] == 58) {
        return None;
    }
    let (mut tail, _, e2) = read_groups(b, e + 2, 0, 7 - head.len());
    let ghost tail_view = tail@;
    let fill = 8 - head.len() - tail.len();
    let mut g = head;
    let ghost head_view = g@;
    let mut k: usize = 0;
    while k < fill
        invariant
            k <= fill,
            g@ == head_view + zero_groups(k as int),
        decreases fill - k,
    {
        g.push(0);
        k += 1;
        assert(g@ =~= head_view + zero_groups(k as int));
    }
    g.append(&mut tail);
    assert(g@ =~= head_view + zero_groups(fill as int) + tail_view);
    Some((ipv6_from(&g), e2))
}

fn read_scope(b: &[u8], pos: usize) -> (r: Option<(u32, usize)>)
    requires
        pos <= b@.len(),
    ensures
        match r {
            Some((v, e)) => scope_at(b@, pos as int) == Some((v, e as int)) && e <= b@.len(),
            None => scope_at(b@, pos as int) is None,
        },
{
    if !(pos < b.len() && b[pos] == 37) {
        return None;
    }
    let e = digit_run(b, pos + 1);
    if e == pos + 1 {
        return None;
    }
    match digits_value_upto(b, pos + 1, e, 0xffff_ffff) {
        Some(v) => Some((v as u32, e)),
        None => None,
    }
}

fn parse_v6_bytes(b: &[u8]) -> (r: Option<PeerAddr>)
    ensures
        r == parse_v6(b@),
{
    if !(b.len() > 0 && b[0] == 91) {
        return None;
    }
    let (ip, e) = match read_ipv6(b, 1) {
        Some(x) => x,
        None => {
            return None;
        },
    };
    let (scope_id, e2) = match read_scope(b, e) {
        Some(x) => x,
        None => (0, e),
    };
    if !(e2 < b.len() && e2 + 1 < b.len() && b[e2] == 93 && b[e2 + 1] == 58) {
        return None;
    }
    let e3 = digit_run(b, e2 + 2);
    if e3 != b.len() || e3 == e2 + 2 {
        proof {
            if e3 != b@.len() {
                assert(b@.subrange(e2 + 2, b@.len() as int)[e3 - (e2 + 2)] == b@[e3 as int]);
            }
        }
        return None;
    }
    let port = match digits_value_upto(b, e2 + 2, e3, 65535) {
        Some(v) => v,
        None => {
            return None;
        },
    };
    assert(all_digits(b@.subrange(e2 + 2, b@.len() as int)));
    Some(PeerAddr::V6 { ip, port: port as u16, flowinfo: 0, scope_id })
}

#[verifier::external_body]
pub(crate) fn push_char(s: &mut String, c: char)
    ensures
        final(s)@ == old(s)@.push(c),
{
    s.push(c);
}

fn digit_of(d: u64) -> (c: char)
    requires
        d < 10,
    ensures
        c == digit_char(d as int),
{
    let b: u8 = 48u8 + (d as u8);
    b as char
}

/// Appends the decimal text of `n`.
pub(crate) fn push_decimal(s: &mut String, n: u64)
    ensures
        final(s)@ == old(s)@ + decimal(n as nat),
    decreases n,
{
    if n >= 10 {
        push_decimal(s, n / 10);
    }
    let c = digit_of(n % 10);
    push_char(s, c);
    proof {
        if n >= 10 {
            assert(decimal(n as nat) == decimal((n / 10) as nat).push(digit_char((n % 10) as int)));
        }
    }
    assert(final(s)@ =~= old(s)@ + decimal(n as nat));
}

/// The character of hexadecimal digit `d`, lower case.
pub open spec fn hex_char(d: nat) -> char {
    if d < 10 {
        (d + 48) as char
    } else {
        (d + 87) as char
    }
}

/// The hexadecimal text of `n`, lower case, without leading zeros.
pub open spec fn hex_num(n: nat) -> Seq<char>
    decreases n,
{
    if n < 16 {
        seq![hex_char(n)]
    } else {
        hex_num(n / 16).push(hex_char(n % 16))
    }
}

/// Groups in hexadecimal, separated by colons.
pub open spec fn groups_text(g: Seq<u16>) -> Seq<char>
    decreases g.len(),
{
    if g.len() == 0 {
        Seq::empty()
    } else if g.len() == 1 {
        hex_num(g[0] as nat)
    } else {
        groups_text(g.drop_last()) + seq![':'] + hex_num(g.last() as nat)
    }
}

/// An IPv4 address mapped into IPv6, `::ffff:a.b.c.d`.
pub open spec fn is_ipv4_mapped(ip: Ipv6) -> bool {
    ip.s0 == 0 && ip.s1 == 0 && ip.s2 == 0 && ip.s3 == 0 && ip.s4 == 0 && ip.s5 == 0xffff
}

pub open spec fn mapped_ipv4(ip: Ipv6) -> Ipv4 {
    Ipv4 { a: (ip.s6 / 256) as u8, b: (ip.s6 % 256) as u8, c: (ip.s7 / 256) as u8, d: (ip.s7 % 256) as u8 }
}

/// Scans `g` from `i` for runs of zero groups, given the run under way and
/// the longest so far; a later run replaces it only when longer. Gives the
/// start and length of the first longest run.
pub open spec fn zero_scan(g: Seq<u16>, i: nat, cur_start: nat, cur_len: nat, best_start: nat, best_len: nat) -> (nat, nat)
    decreases g.len() - i,
{
    if i >= g.len() {
        (best_start, best_len)
    } else if g[i as int] == 0 {
        let cs = if cur_len == 0 { i } else { cur_start };
        let cl = cur_len + 1;
        if cl > best_len {
            zero_scan(g, i + 1, cs, cl, cs, cl)
        } else {
            zero_scan(g, i + 1, cs, cl, best_start, best_len)
        }
    } else {
        zero_scan(g, i + 1, 0, 0, best_start, best_len)
    }
}

/// The start and length of the first longest run of zero groups in `g`.
pub open spec fn longest_zero_run(g: Seq<u16>) -> (nat, nat) {
    zero_scan(g, 0, 0, 0, 0, 0)
}

/// The text of an IPv6 address: `::ffff:a.b.c.d` for a mapped IPv4
/// address; otherwise the groups in lower-case hexadecimal, the first
/// longest run of two or more zero groups written `::`.
pub open spec fn ipv6_text(ip: Ipv6) -> Seq<char> {
    if is_ipv4_mapped(ip) {
        seq![':', ':', 'f', 'f', 'f', 'f', ':'] + ipv4_text(mapped_ipv4(ip))
    } else {
        let g = ip.segs();
        let z = longest_zero_run(g);
        if z.1 > 1 {
            groups_text(g.subrange(0, z.0 as int)) + seq![':', ':'] + groups_text(g.subrange((z.0 + z.1) as int, 8))
        } else {
            groups_text(g)
        }
    }
}

fn hex_digit_of(d: u64) -> (c: char)
    requires
        d < 16,
    ensures
        c == hex_char(d as nat),
{
    if d < 10 {
        let b: u8 = 48u8 + (d as u8);
        b as char
    } else {
        let b: u8 = 87u8 + (d as u8);
        b as char
    }
}

/// Appends the hexadecimal text of `n`.
fn push_hex(s: &mut String, n: u64)
    ensures
        final(s)@ == old(s)@ + hex_num(n as nat),
    decreases n,
{
    if n >= 16 {
        push_hex(s, n / 16);
    }
    let c = hex_digit_of(n % 16);
    push_char(s, c);
    proof {
        if n >= 16 {
            assert(hex_num(n as nat) == hex_num((n / 16) as nat).push(hex_char((n % 16) as nat)));
        }
    }
    assert(final(s)@ =~= old(s)@ + hex_num(n as nat));
}

/// Appends groups `lo..hi` of `g`.
fn push_groups(s: &mut String, g: &Vec<u16>, lo: usize, hi: usize)
    requires
        lo <= hi <= g@.len(),
    ensures
        final(s)@ == old(s)@ + groups_text(g@.subrange(lo as int, hi as int)),
{
    let ghost start = s@;
    let mut i = lo;
    assert(g@.subrange(lo as int, lo as int) =~= Seq::<u16>::empty());
    assert(start + groups_text(Seq::<u16>::empty()) =~= start);
    while i < hi
        invariant
            lo <= i <= hi <= g@.len(),
            s@ == start + groups_text(g@.subrange(lo as int, i as int)),
        decreases hi - i,
    {
        let ghost before = s@;
        if i > lo {
            push_char(s, ':');
        }
        push_hex(s, g[i] as u64);
        let ghost sub = g@.subrange(lo as int, i + 1);
        assert(sub.drop_last() =~= g@.subrange(lo as int, i as int));
        assert(sub.last() == g@[i as int]);
        if i == lo {
            assert(sub.len() == 1);
            assert(s@ =~= start + groups_text(sub));
        } else {
            assert(s@ =~= start + groups_text(sub));
        }
        i += 1;
    }
}

/// Appends `a.b.c.d`.
fn push_ipv4(s: &mut String, ip: Ipv4)
    ensures
        final(s)@ == old(s)@ + ipv4_text(ip),
{
    push_decimal(s, ip.a as u64);
    push_char(s, '.');
    push_decimal(s, ip.b as u64);
    push_char(s, '.');
    push_decimal(s, ip.c as u64);
    push_char(s, '.');
    push_decimal(s, ip.d as u64);
    assert(final(s)@ =~= old(s)@ + ipv4_text(ip));
}

/// The first longest run of zero groups in `g`: its start and length.
fn zero_run(g: &Vec<u16>) -> (r: (usize, usize))
    ensures
        r.0 as nat == longest_zero_run(g@).0,
        r.1 as nat == longest_zero_run(g@).1,
        r.0 + r.1 <= g@.len(),
{
    let mut cs: usize = 0;
    let mut cl: usize = 0;
    let mut bs: usize = 0;
    let mut bl: usize = 0;
    let mut i: usize = 0;
    while i < g.len()
        invariant
            i <= g@.len(),
            bs + bl <= i,
            cl <= i,
            cl > 0 ==> cs + cl == i,
            longest_zero_run(g@) == zero_scan(g@, i as nat, cs as nat, cl as nat, bs as nat, bl as nat),
        decreases g@.len() - i,
    {
        if g[i] == 0 {
            if cl == 0 {
                cs = i;
            }
            cl = cl + 1;
            if cl > bl {
                bs = cs;
                bl = cl;
            }
        } else {
            cs = 0;
            cl = 0;
        }
        i += 1;
    }
    (bs, bl)
}

/// Appends the text of an IPv6 address.
fn push_ipv6(s: &mut String, ip: Ipv6)
    ensures
        final(s)@ == old(s)@ + ipv6_text(ip),
{
    if ip.s0 == 0 && ip.s1 == 0 && ip.s2 == 0 && ip.s3 == 0 && ip.s4 == 0 && ip.s5 == 0xffff {
        push_char(s, ':');
        push_char(s, ':');
        push_char(s, 'f');
        push_char(s, 'f');
        push_char(s, 'f');
        push_char(s, 'f');
        push_char(s, ':');
        let v4 = Ipv4 { a: (ip.s6 / 256) as u8, b: (ip.s6 % 256) as u8, c: (ip.s7 / 256) as u8, d: (ip.s7 % 256) as u8 };
        push_ipv4(s, v4);
        assert(final(s)@ =~= old(s)@ + ipv6_text(ip));
    } else {
        let g = ip.segments();
        let (start, len) = zero_run(&g);
        if len > 1 {
            push_groups(s, &g, 0, start);
            push_char(s, ':');
            push_char(s, ':');
            push_groups(s, &g, start + len, 8);
        } else {
            push_groups(s, &g, 0, 8);
            assert(g@.subrange(0, 8) =~= g@);
        }
        assert(final(s)@ =~= old(s)@ + ipv6_text(ip));
    }
}

/// IPv4 addresses in order, octet by octet.
pub open spec fn ipv4_lt(x: Ipv4, y: Ipv4) -> bool {
    if x.a != y.a {
        x.a < y.a
    } else if x.b != y.b {
        x.b < y.b
    } else if x.c != y.c {
        x.c < y.c
    } else {
        x.d < y.d
    }
}

/// IPv6 addresses in order, group by group.
pub open spec fn ipv6_lt(x: Ipv6, y: Ipv6) -> bool {
    if x.s0 != y.s0 {
        x.s0 < y.s0
    } else if x.s1 != y.s1 {
        x.s1 < y.s1
    } else if x.s2 != y.s2 {
        x.s2 < y.s2
    } else if x.s3 != y.s3 {
        x.s3 < y.s3
    } else if x.s4 != y.s4 {
        x.s4 < y.s4
    } else if x.s5 != y.s5 {
        x.s5 < y.s5
    } else if x.s6 != y.s6 {
        x.s6 < y.s6
    } else {
        x.s7 < y.s7
    }
}

/// `x` comes before `y`: every IPv4 address before every IPv6 address;
/// among each, by IP address, then by port.
pub open spec fn addr_lt(x: PeerAddr, y: PeerAddr) -> bool {
    match x {
        PeerAddr::V4 { ip: xi, port: xp } => match y {
            PeerAddr::V4 { ip: yi, port: yp } => if xi != yi {
                ipv4_lt(xi, yi)
            } else {
                xp < yp
            },
            PeerAddr::V6 { .. } => true,
        },
        PeerAddr::V6 { ip: xi, port: xp, .. } => match y {
            PeerAddr::V4 { .. } => false,
            PeerAddr::V6 { ip: yi, port: yp, .. } => if xi != yi {
                ipv6_lt(xi, yi)
            } else {
                xp < yp
            },
        },
    }
}

fn ipv4_less(x: Ipv4, y: Ipv4) -> (r: bool)
    ensures
        r == ipv4_lt(x, y),
{
    if x.a != y.a {
        x.a < y.a
    } else if x.b != y.b {
        x.b < y.b
    } else if x.c != y.c {
        x.c < y.c
    } else {
        x.d < y.d
    }
}

fn ipv6_less(x: Ipv6, y: Ipv6) -> (r: bool)
    ensures
        r == ipv6_lt(x, y),
{
    if x.s0 != y.s0 {
        x.s0 < y.s0
    } else if x.s1 != y.s1 {
        x.s1 < y.s1
    } else if x.s2 != y.s2 {
        x.s2 < y.s2
    } else if x.s3 != y.s3 {
        x.s3 < y.s3
    } else if x.s4 != y.s4 {
        x.s4 < y.s4
    } else if x.s5 != y.s5 {
        x.s5 < y.s5
    } else if x.s6 != y.s6 {
        x.s6 < y.s6
    } else {
        x.s7 < y.s7
    }
}

impl PeerAddr {
    /// Whether `self` comes before `other`: every IPv4 address before every
    /// IPv6 address; among each, by IP address, then by port.
    pub fn less_than(&self, other: &PeerAddr) -> (r: bool)
        ensures
            r == addr_lt(*self, *other),
    {
        match (self, other) {
            (PeerAddr::V4 { ip: xi, port: xp }, PeerAddr::V4 { ip: yi, port: yp }) => {
                if xi != yi {
                    ipv4_less(*xi, *yi)
                } else {
                    *xp < *yp
                }
            },
            (PeerAddr::V4 { .. }, PeerAddr::V6 { .. }) => true,
            (PeerAddr::V6 { .. }, PeerAddr::V4 { .. }) => false,
            (PeerAddr::V6 { ip: xi, port: xp, .. }, PeerAddr::V6 { ip: yi, port: yp, .. }) => {
                if xi != yi {
                    ipv6_less(*xi, *yi)
                } else {
                    *xp < *yp
                }
            },
        }
    }

    /// Reads a socket address: `a.b.c.d:port`, each octet one to three
    /// digits without a leading zero and at most 255; or `[ipv6]:port`,
    /// with an optional `%scope` before the `]`; the port at least one digit
    /// and at most 65535; and nothing else.
    pub fn parse(text: &str) -> (r: Option<PeerAddr>)
        ensures
            r == parse_addr(text.spec_bytes()),
    {
        let b = text.as_bytes();
        match Self::parse_v4_bytes(b) {
            Some(a) => Some(a),
            None => parse_v6_bytes(b),
        }
    }

    /// The address as text: `a.b.c.d:port`, or `[ipv6]:port` with
    /// `%scope` inside the brackets when the scope is not zero.
    pub fn to_string(&self) -> (s: String)
        ensures
            s@ == addr_text(*self),
    {
        let mut s = String::new();
        match self {
            PeerAddr::V4 { ip, port } => {
                push_ipv4(&mut s, *ip);
                push_char(&mut s, ':');
                push_decimal(&mut s, *port as u64);
            },
            PeerAddr::V6 { ip, port, scope_id, .. } => {
                push_char(&mut s, '[');
                push_ipv6(&mut s, *ip);
                if *scope_id != 0 {
                    push_char(&mut s, '%');
                    push_decimal(&mut s, *scope_id as u64);
                }
                push_char(&mut s, ']');
                push_char(&mut s, ':');
                push_decimal(&mut s, *port as u64);
            },
        }
        assert(s@ =~= addr_text(*self));
        s
    }

    fn parse_v4_bytes(b: &[u8]) -> (r: Option<PeerAddr>)
        ensures
            r == parse_v4(b@),
    {
        let ghost s = b@;
        let (a, e1) = match read_octet(b, 0) {
            Some(x) => x,
            None => {
                proof { if has_fields(s) { let f = choose_fields(s); } }
                return None;
            },
        };
        if e1 >= b.len() || b[e1] != 46 {
            proof { if has_fields(s) { let f = choose_fields(s); lemma_run_unique(s, 0, f.0, e1 as int); } }
            return None;
        }
        let (bb, e2) = match read_octet(b, e1 + 1) {
            Some(x) => x,
            None => {
                proof { if has_fields(s) { let f = choose_fields(s); lemma_run_unique(s, 0, f.0, e1 as int); } }
                return None;
            },
        };
        if e2 >= b.len() || b[e2] != 46 {
            proof { if has_fields(s) { let f = choose_fields(s); lemma_run_unique(s, 0, f.0, e1 as int); lemma_run_unique(s, f.0 + 1, f.1, e2 as int); } }
            return None;
        }
        let (c, e3) = match read_octet(b, e2 + 1) {
            Some(x) => x,
            None => {
                proof { if has_fields(s) { let f = choose_fields(s); lemma_run_unique(s, 0, f.0, e1 as int); lemma_run_unique(s, f.0 + 1, f.1, e2 as int); } }
                return None;
            },
        };
        if e3 >= b.len() || b[e3] != 46 {
            proof { if has_fields(s) { let f = choose_fields(s); lemma_run_unique(s, 0, f.0, e1 as int); lemma_run_unique(s, f.0 + 1, f.1, e2 as int); lemma_run_unique(s, f.1 + 1, f.2, e3 as int); } }
            return None;
        }
        let (d, e4) = match read_octet(b, e3 + 1) {
            Some(x) => x,
            None => {
                proof { if has_fields(s) { let f = choose_fields(s); lemma_run_unique(s, 0, f.0, e1 as int); lemma_run_unique(s, f.0 + 1, f.1, e2 as int); lemma_run_unique(s, f.1 + 1, f.2, e3 as int); } }
                return None;
            },
        };
        if e4 >= b.len() || b[e4] != 58 {
            proof { if has_fields(s) { let f = choose_fields(s); lemma_run_unique(s, 0, f.0, e1 as int); lemma_run_unique(s, f.0 + 1, f.1, e2 as int); lemma_run_unique(s, f.1 + 1, f.2, e3 as int); lemma_run_unique(s, f.2 + 1, f.3, e4 as int); } }
            return None;
        }
        let e5 = digit_run(b, e4 + 1);
        if e5 != b.len() || e5 == e4 + 1 {
            proof { if has_fields(s) { let f = choose_fields(s); lemma_run_unique(s, 0, f.0, e1 as int); lemma_run_unique(s, f.0 + 1, f.1, e2 as int); lemma_run_unique(s, f.1 + 1, f.2, e3 as int); lemma_run_unique(s, f.2 + 1, f.3, e4 as int); lemma_run_unique(s, f.3 + 1, s.len() as int, e5 as int); } }
            return None;
        }
        let port = match digits_value_upto(b, e4 + 1, e5, 65535) {
            Some(v) => v,
            None => {
                proof { if has_fields(s) { let f = choose_fields(s); lemma_run_unique(s, 0, f.0, e1 as int); lemma_run_unique(s, f.0 + 1, f.1, e2 as int); lemma_run_unique(s, f.1 + 1, f.2, e3 as int); lemma_run_unique(s, f.2 + 1, f.3, e4 as int); assert(s.subrange(e4 + 1, e5 as int) =~= s.subrange(f.3 + 1, s.len() as int)); } }
                return None;
            },
        };
        proof {
            assert(all_digits(s.subrange(e4 + 1, e5 as int)));
            assert(addr_fields_at(s, e1 as int, e2 as int, e3 as int, e4 as int));
            let (i1, i2, i3, i4) = choose|i1: int, i2: int, i3: int, i4: int| addr_fields_at(s, i1, i2, i3, i4);
            lemma_fields_forced(s, i1, i2, i3, i4);
            lemma_run_unique(s, 0, i1, e1 as int);
            lemma_run_unique(s, i1 + 1, i2, e2 as int);
            lemma_run_unique(s, i2 + 1, i3, e3 as int);
            lemma_run_unique(s, i3 + 1, i4, e4 as int);
            assert(s.subrange(e4 + 1, e5 as int) =~= s.subrange(e4 + 1, s.len() as int));
        }
        Some(PeerAddr::V4 { ip: Ipv4 { a, b: bb, c, d }, port: port as u16 })
    }

}

} // verus!

verus! {

/// The bytes of an ASCII text.
pub open spec fn ascii_bytes(t: Seq<char>) -> Seq<u8> {
    t.map_values(|c: char| c as u8)
}

proof fn lemma_decimal(n: nat)
    ensures
        decimal(n).len() >= 1,
        n < 10 ==> decimal(n).len() == 1,
        n >= 10 ==> decimal(n).len() >= 2,
        n < 100 ==> decimal(n).len() <= 2,
        n < 1000 ==> decimal(n).len() <= 3,
        decimal(n).len() > 1 ==> decimal(n)[0] != '0',
        forall|i: int| 0 <= i < decimal(n).len() ==> 48 <= (#[trigger] decimal(n)[i]) as int <= 57,
        all_digits(ascii_bytes(decimal(n))),
        digits_value(ascii_bytes(decimal(n))) == n,
    decreases n,
{
    let c = digit_char((n % 10) as int);
    assert(c as int == (n % 10) + 48);
    assert((c as u8) as int == (n % 10) + 48);
    if n >= 10 {
        lemma_decimal(n / 10);
        let d = decimal(n / 10);
        assert(ascii_bytes(d.push(c)) =~= ascii_bytes(d).push(c as u8));
        assert(ascii_bytes(d.push(c)).drop_last() =~= ascii_bytes(d));
        assert(decimal(n)[0] == d[0]);
        if n / 10 < 10 {
            assert(d[0] == digit_char((n / 10) as int));
            assert(d[0] as int == n / 10 + 48);
            assert(('0' as int) == 48);
            assert(d[0] != '0');
        }
        assert(d[0] != '0');
        let x = ascii_bytes(decimal(n));
        assert(x.drop_last() =~= ascii_bytes(d));
        assert(x.last() == c as u8);
        assert(digits_value(x) == digits_value(ascii_bytes(d)) * 10 + (c as u8 - 48) as nat);
    } else {
        let x = ascii_bytes(decimal(n));
        assert(x.drop_last() =~= Seq::<u8>::empty());
        assert(x.last() == c as u8);
        assert(digits_value(x) == digits_value(x.drop_last()) * 10 + (c as u8 - 48) as nat);
    }
}

proof fn lemma_ascii_concat(a: Seq<char>, b: Seq<char>)
    ensures
        ascii_bytes(a + b) == ascii_bytes(a) + ascii_bytes(b),
{
    assert(ascii_bytes(a + b) =~= ascii_bytes(a) + ascii_bytes(b));
}

proof fn lemma_hex_num(n: nat)
    ensures
        hex_num(n).len() >= 1,
        n < 16 ==> hex_num(n).len() == 1,
        n < 256 ==> hex_num(n).len() <= 2,
        n < 4096 ==> hex_num(n).len() <= 3,
        n < 65536 ==> hex_num(n).len() <= 4,
        is_ascii_chars(hex_num(n)),
        forall|i: int| 0 <= i < hex_num(n).len() ==> is_hex_digit(#[trigger] ascii_bytes(hex_num(n))[i]),
        hex_value(ascii_bytes(hex_num(n))) == n,
    decreases n,
{
    let c = hex_char(n % 16);
    if n % 16 < 10 {
        assert(c as int == (n % 16) + 48);
        assert((c as u8) as int == (n % 16) + 48);
    } else {
        assert(c as int == (n % 16) + 87);
        assert((c as u8) as int == (n % 16) + 87);
    }
    assert(hex_digit_value(c as u8) == n % 16);
    if n >= 16 {
        lemma_hex_num(n / 16);
        let d = hex_num(n / 16);
        let x = ascii_bytes(hex_num(n));
        assert(x =~= ascii_bytes(d).push(c as u8));
        assert(x.drop_last() =~= ascii_bytes(d));
        assert(x.last() == c as u8);
        assert(hex_value(x) == hex_value(x.drop_last()) * 16 + hex_digit_value(x.last()));
        assert(hex_value(x) == (n / 16) * 16 + n % 16);
        assert forall|i: int| 0 <= i < hex_num(n).len() implies is_hex_digit(#[trigger] ascii_bytes(hex_num(n))[i]) by {
            if i < d.len() {
                assert(x[i] == ascii_bytes(d)[i]);
            }
        }
        assert forall|i: int| 0 <= i < hex_num(n).len() implies '\0' <= #[trigger] hex_num(n)[i] <= '\u{7f}' by {
            if i < d.len() {
                assert(hex_num(n)[i] == d[i]);
            }
        }
    } else {
        let x = ascii_bytes(hex_num(n));
        assert(x.drop_last() =~= Seq::<u8>::empty());
        assert(x.last() == c as u8);
        assert(hex_value(x) == hex_value(x.drop_last()) * 16 + hex_digit_value(x.last()));
        assert(x[0] == c as u8);
    }
}

proof fn lemma_split(s: Seq<u8>, p: int, a: Seq<u8>, b: Seq<u8>)
    requires
        0 <= p,
        p + a.len() + b.len() <= s.len(),
        s.subrange(p, p + a.len() + b.len()) == a + b,
    ensures
        s.subrange(p, p + a.len()) == a,
        s.subrange(p + a.len(), p + a.len() + b.len()) == b,
{
    let w = s.subrange(p, p + a.len() + b.len());
    assert forall|j: int| 0 <= j < a.len() implies s.subrange(p, p + a.len())[j] == a[j] by {
        assert(w[j] == (a + b)[j]);
    }
    assert forall|j: int| 0 <= j < b.len() implies s.subrange(p + a.len(), p + a.len() + b.len())[j] == b[j] by {
        assert(w[a.len() + j] == (a + b)[a.len() + j]);
    }
    assert(s.subrange(p, p + a.len()) =~= a);
    assert(s.subrange(p + a.len(), p + a.len() + b.len()) =~= b);
}

proof fn lemma_hex_run(s: Seq<u8>, i: int, e: int)
    requires
        0 <= i <= e <= s.len(),
        forall|j: int| i <= j < e ==> is_hex_digit(#[trigger] s[j]),
        e == s.len() || !is_hex_digit(s[e]),
    ensures
        hex_run_end(s, i) == e,
    decreases e - i,
{
    if i < e {
        lemma_hex_run(s, i + 1, e);
    }
}

proof fn lemma_digit_run(s: Seq<u8>, i: int, e: int)
    requires
        0 <= i <= e <= s.len(),
        forall|j: int| i <= j < e ==> is_digit(#[trigger] s[j]),
        e == s.len() || !is_digit(s[e]),
    ensures
        digit_run_end(s, i) == e,
    decreases e - i,
{
    if i < e {
        lemma_digit_run(s, i + 1, e);
    }
}

/// Within a run of hexadecimal digits that a byte other than `.` ends, the
/// decimal digits stop before a `.`.
proof fn lemma_digit_stop(s: Seq<u8>, i: int, e: int)
    requires
        0 <= i <= e < s.len(),
        forall|j: int| i <= j < e ==> is_hex_digit(#[trigger] s[j]),
        !is_hex_digit(s[e]),
        s[e] != 46,
    ensures
        i <= digit_run_end(s, i) <= e,
        s[digit_run_end(s, i)] != 46,
    decreases e - i,
{
    if i < e && is_digit(s[i]) {
        lemma_digit_stop(s, i + 1, e);
    }
}

proof fn lemma_no_ipv4(s: Seq<u8>, i: int, e: int)
    requires
        0 <= i <= e < s.len(),
        forall|j: int| i <= j < e ==> is_hex_digit(#[trigger] s[j]),
        !is_hex_digit(s[e]),
        s[e] != 46,
    ensures
        ipv4_at(s, i) is None,
{
    lemma_digit_stop(s, i, e);
}

proof fn lemma_groups_text_front(g: Seq<u16>)
    requires
        g.len() >= 2,
    ensures
        groups_text(g) == hex_num(g[0] as nat) + seq![':'] + groups_text(g.drop_first()),
    decreases g.len(),
{
    let df = g.drop_first();
    let dl = g.drop_last();
    assert(groups_text(g) == groups_text(dl) + seq![':'] + hex_num(g.last() as nat));
    if g.len() == 2 {
        assert(dl =~= seq![g[0]]);
        assert(df =~= seq![g[1]]);
        assert(groups_text(dl) == hex_num(g[0] as nat));
        assert(groups_text(df) == hex_num(g[1] as nat));
    } else {
        lemma_groups_text_front(dl);
        assert(dl.drop_first() =~= df.drop_last());
        assert(dl[0] == g[0]);
        assert(df.last() == g.last());
        assert(groups_text(df) == groups_text(df.drop_last()) + seq![':'] + hex_num(df.last() as nat));
        assert(groups_text(g) =~= hex_num(g[0] as nat) + seq![':'] + groups_text(df));
    }
}

/// Where a run of groups stops: at `]`, at `%`, or at `::`.
spec fn groups_stop(s: Seq<u8>, q: int) -> bool {
    &&& 0 <= q < s.len()
    &&& s[q] == 93 || s[q] == 37 || (s[q] == 58 && q + 1 < s.len() && s[q + 1] == 58)
}

proof fn lemma_stop_reads_nothing(s: Seq<u8>, q: int, i: nat, limit: nat)
    requires
        groups_stop(s, q),
        i > 0,
    ensures
        groups_from(s, q, i, limit) == (Seq::<u16>::empty(), false, q),
{
    if s[q] == 58 {
        assert(digit_run_end(s, q + 1) == q + 1);
        assert(s.subrange(q + 1, q + 1).len() == 0);
        assert(hex_run_end(s, q + 1) == q + 1);
    }
}

/// The bytes of `g` written as groups, after a colon unless `i` is zero.
spec fn groups_bytes(g: Seq<u16>, i: nat) -> Seq<u8> {
    if i == 0 {
        ascii_bytes(groups_text(g))
    } else {
        seq![58u8] + ascii_bytes(groups_text(g))
    }
}

#[verifier::rlimit(30)]
proof fn lemma_read_groups(s: Seq<u8>, pos: int, g: Seq<u16>, i: nat, limit: nat)
    requires
        0 <= pos,
        g.len() >= 1,
        i + g.len() <= limit,
        pos + groups_bytes(g, i).len() <= s.len(),
        s.subrange(pos, pos + groups_bytes(g, i).len()) == groups_bytes(g, i),
        groups_stop(s, pos + groups_bytes(g, i).len()),
    ensures
        groups_from(s, pos, i, limit) == (g, false, pos + groups_bytes(g, i).len()),
    decreases g.len(),
{
    let text = groups_bytes(g, i);
    let q = pos + text.len();
    let p1 = if i == 0 { pos } else { pos + 1 };
    lemma_hex_num(g[0] as nat);
    let h = ascii_bytes(hex_num(g[0] as nat));
    let m = h.len() as int;
    assert forall|j: int| 0 <= j < text.len() implies s[pos + j] == #[trigger] text[j] by {
        assert(s.subrange(pos, q)[j] == s[pos + j]);
    }
    let rest = g.drop_first();
    if g.len() == 1 {
        assert(groups_text(g) == hex_num(g[0] as nat));
    } else {
        lemma_groups_text_front(g);
        lemma_ascii_concat(hex_num(g[0] as nat) + seq![':'], groups_text(rest));
        lemma_ascii_concat(hex_num(g[0] as nat), seq![':']);
        assert(ascii_bytes(seq![':']) =~= seq![58u8]);
    }
    assert forall|j: int| 0 <= j < m implies s[p1 + j] == #[trigger] h[j] by {
        if i == 0 {
            assert(text[j] == h[j]);
        } else {
            assert(text[j + 1] == h[j]);
        }
    }
    assert(p1 + m < s.len());
    if g.len() > 1 {
        if i == 0 {
            assert(text[m] == 58);
        } else {
            assert(text[m + 1] == 58);
        }
        assert(s[p1 + m] == 58);
    } else {
        assert(p1 + m == q);
    }
    assert(s[p1 + m] == 58 || s[p1 + m] == 93 || s[p1 + m] == 37);
    assert forall|j: int| p1 <= j < p1 + m implies is_hex_digit(#[trigger] s[j]) by {
        assert(s[p1 + (j - p1)] == h[j - p1]);
    }
    lemma_hex_run(s, p1, p1 + m);
    assert(s.subrange(p1, p1 + m) =~= h);
    lemma_no_ipv4(s, p1, p1 + m);
    if i > 0 {
        assert(text[0] == 58);
        assert(s[pos] == 58);
    }
    assert(sep_group_at(s, pos, i) == Some((g[0], p1 + m)));
    if i + 1 < limit {
        assert(sep_ipv4_at(s, pos, i) is None);
    }
    if g.len() == 1 {
        if i + 1 < limit {
            lemma_stop_reads_nothing(s, q, i + 1, limit);
        }
        assert(groups_from(s, q, i + 1, limit) == (Seq::<u16>::empty(), false, q));
        assert(seq![g[0]] + Seq::<u16>::empty() =~= g);
        assert(groups_from(s, pos, i, limit) == (seq![g[0]] + Seq::<u16>::empty(), false, q));
    } else {
        let text2 = groups_bytes(rest, i + 1);
        assert(text2 =~= seq![58u8] + ascii_bytes(groups_text(rest)));
        assert(q == p1 + m + text2.len());
        assert forall|j: int| 0 <= j < text2.len() implies s.subrange(p1 + m, q)[j] == #[trigger] text2[j] by {
            if i == 0 {
                assert(text[m + j] == text2[j]);
            } else {
                assert(text[m + 1 + j] == text2[j]);
            }
        }
        assert(s.subrange(p1 + m, q) =~= text2);
        lemma_read_groups(s, p1 + m, rest, i + 1, limit);
        assert(seq![g[0]] + rest =~= g);
        assert(groups_from(s, pos, i, limit) == (seq![g[0]] + rest, false, q));
    }
}

/// An octet's text, read back.
proof fn lemma_read_octet(s: Seq<u8>, p: int, n: u8)
    requires
        0 <= p,
        p + decimal(n as nat).len() < s.len(),
        s.subrange(p, p + decimal(n as nat).len()) == ascii_bytes(decimal(n as nat)),
        !is_digit(s[p + decimal(n as nat).len()]),
    ensures
        octet_at(s, p) == Some((n, p + decimal(n as nat).len())),
{
    lemma_decimal(n as nat);
    let d = ascii_bytes(decimal(n as nat));
    let e = p + d.len();
    assert forall|j: int| p <= j < e implies is_digit(#[trigger] s[j]) by {
        assert(s.subrange(p, e)[j - p] == s[j]);
        assert(d[j - p] == decimal(n as nat)[j - p] as u8);
    }
    lemma_digit_run(s, p, e);
    assert(d.len() > 1 ==> d[0] != 48) by {
        if d.len() > 1 {
            assert(d[0] == decimal(n as nat)[0] as u8);
            assert(decimal(n as nat)[0] != '0');
            assert(48 <= decimal(n as nat)[0] as int <= 57);
        }
    }
}

proof fn lemma_read_ipv4(s: Seq<u8>, p: int, ip: Ipv4)
    requires
        0 <= p,
        p + ipv4_text(ip).len() < s.len(),
        s.subrange(p, p + ipv4_text(ip).len()) == ascii_bytes(ipv4_text(ip)),
        !is_digit(s[p + ipv4_text(ip).len()]),
    ensures
        ipv4_at(s, p) == Some((ip, p + ipv4_text(ip).len())),
{
    let a1 = ascii_bytes(decimal(ip.a as nat));
    let a2 = ascii_bytes(decimal(ip.b as nat));
    let a3 = ascii_bytes(decimal(ip.c as nat));
    let a4 = ascii_bytes(decimal(ip.d as nat));
    let t = ascii_bytes(ipv4_text(ip));
    let dot = seq![46u8];
    assert(t =~= a1 + dot + a2 + dot + a3 + dot + a4);
    let e1 = p + a1.len();
    let e2 = e1 + 1 + a2.len();
    let e3 = e2 + 1 + a3.len();
    let e4 = e3 + 1 + a4.len();
    lemma_split(s, p, a1 + dot + a2 + dot + a3 + dot, a4);
    lemma_split(s, p, a1 + dot + a2 + dot + a3, dot);
    lemma_split(s, p, a1 + dot + a2 + dot, a3);
    lemma_split(s, p, a1 + dot + a2, dot);
    lemma_split(s, p, a1 + dot, a2);
    lemma_split(s, p, a1, dot);
    assert(s.subrange(e1, e1 + 1)[0] == s[e1]);
    assert(s.subrange(e2, e2 + 1)[0] == s[e2]);
    assert(s.subrange(e3, e3 + 1)[0] == s[e3]);
    lemma_read_octet(s, p, ip.a);
    lemma_read_octet(s, e1 + 1, ip.b);
    lemma_read_octet(s, e2 + 1, ip.c);
    lemma_read_octet(s, e3 + 1, ip.d);
}

proof fn lemma_zero_scan(g: Seq<u16>, i: nat, cs: nat, cl: nat, bs: nat, bl: nat)
    requires
        i <= g.len(),
        bs + bl <= i,
        forall|j: int| bs <= j < bs + bl ==> g[j] == 0,
        cl <= i,
        cl > 0 ==> cs + cl == i,
        forall|j: int| cs <= j < cs + cl ==> g[j] == 0,
    ensures
        zero_scan(g, i, cs, cl, bs, bl).0 + zero_scan(g, i, cs, cl, bs, bl).1 <= g.len(),
        forall|j: int|
            zero_scan(g, i, cs, cl, bs, bl).0 <= j < zero_scan(g, i, cs, cl, bs, bl).0 + zero_scan(g, i, cs, cl, bs, bl).1
                ==> g[j] == 0,
    decreases g.len() - i,
{
    if i < g.len() {
        if g[i as int] == 0 {
            let ncs = if cl == 0 { i } else { cs };
            let ncl = cl + 1;
            if ncl > bl {
                lemma_zero_scan(g, i + 1, ncs, ncl, ncs, ncl);
            } else {
                lemma_zero_scan(g, i + 1, ncs, ncl, bs, bl);
            }
        } else {
            lemma_zero_scan(g, i + 1, 0, 0, bs, bl);
        }
    }
}

/// At a byte that is no hexadecimal digit, no group is read.
proof fn lemma_no_groups_at(s: Seq<u8>, q: int, limit: nat)
    requires
        0 <= q < s.len(),
        !is_hex_digit(s[q]),
    ensures
        groups_from(s, q, 0, limit) == (Seq::<u16>::empty(), false, q),
{
    assert(digit_run_end(s, q) == q);
    assert(s.subrange(q, q).len() == 0);
    assert(hex_run_end(s, q) == q);
}

proof fn lemma_groups_ascii(g: Seq<u16>)
    ensures
        is_ascii_chars(groups_text(g)),
    decreases g.len(),
{
    broadcast use vstd::utf8::is_ascii_chars_concat;

    if g.len() == 1 {
        lemma_hex_num(g[0] as nat);
    } else if g.len() > 1 {
        lemma_groups_ascii(g.drop_last());
        lemma_hex_num(g.last() as nat);
        assert(is_ascii_chars(seq![':']));
        assert(is_ascii_chars(groups_text(g.drop_last()) + seq![':']));
    }
}

proof fn lemma_ipv4_ascii(ip: Ipv4)
    ensures
        is_ascii_chars(ipv4_text(ip)),
{
    broadcast use vstd::utf8::is_ascii_chars_concat;

    lemma_decimal(ip.a as nat);
    lemma_decimal(ip.b as nat);
    lemma_decimal(ip.c as nat);
    lemma_decimal(ip.d as nat);
    assert(is_ascii_chars(seq!['.']));
    let d1 = decimal(ip.a as nat);
    let d2 = decimal(ip.b as nat);
    let d3 = decimal(ip.c as nat);
    let d4 = decimal(ip.d as nat);
    assert(is_ascii_chars(d1) && is_ascii_chars(d2) && is_ascii_chars(d3) && is_ascii_chars(d4));
    assert(is_ascii_chars(d1 + seq!['.']));
    assert(is_ascii_chars(d1 + seq!['.'] + d2));
    assert(is_ascii_chars(d1 + seq!['.'] + d2 + seq!['.']));
    assert(is_ascii_chars(d1 + seq!['.'] + d2 + seq!['.'] + d3));
    assert(is_ascii_chars(d1 + seq!['.'] + d2 + seq!['.'] + d3 + seq!['.']));
}

proof fn lemma_ipv6_ascii(ip: Ipv6)
    ensures
        is_ascii_chars(ipv6_text(ip)),
{
    broadcast use vstd::utf8::is_ascii_chars_concat;

    let g = ip.segs();
    let z = longest_zero_run(g);
    lemma_ipv4_ascii(mapped_ipv4(ip));
    lemma_groups_ascii(g);
    lemma_groups_ascii(g.subrange(0, z.0 as int));
    lemma_groups_ascii(g.subrange((z.0 + z.1) as int, 8));
    assert(is_ascii_chars(seq![':', ':', 'f', 'f', 'f', 'f', ':']));
    assert(is_ascii_chars(seq![':', ':']));
    assert(is_ascii_chars(groups_text(g.subrange(0, z.0 as int)) + seq![':', ':']));
}

#[verifier::spinoff_prover]
#[verifier::rlimit(60)]
proof fn lemma_read_ipv6_mapped(s: Seq<u8>, p: int, ip: Ipv6)
    requires
        0 <= p,
        p + ascii_bytes(ipv6_text(ip)).len() < s.len(),
        s.subrange(p, p + ascii_bytes(ipv6_text(ip)).len()) == ascii_bytes(ipv6_text(ip)),
        s[p + ascii_bytes(ipv6_text(ip)).len()] == 93 || s[p + ascii_bytes(ipv6_text(ip)).len()] == 37,
        is_ipv4_mapped(ip),
    ensures
        ipv6_at(s, p) == Some((ip, p + ascii_bytes(ipv6_text(ip)).len())),
{
    let x = ascii_bytes(ipv6_text(ip));
    let end = p + x.len();
    let g = ip.segs();
    assert(ipv6_of(g) == ip);
    assert forall|j: int| 0 <= j < x.len() implies s[p + j] == #[trigger] x[j] by {
        assert(s.subrange(p, end)[j] == s[p + j]);
    }
    let v4 = mapped_ipv4(ip);
    let f = seq![':', ':', 'f', 'f', 'f', 'f', ':'];
    let fb = seq![58u8, 58u8, 102u8, 102u8, 102u8, 102u8, 58u8];
    lemma_ascii_concat(f, ipv4_text(v4));
    assert(ascii_bytes(f) =~= fb);
    let vb = ascii_bytes(ipv4_text(v4));
    lemma_split(s, p, fb, vb);
    assert(s[p] == 58 && s[p + 1] == 58 && s[p + 6] == 58) by {
        assert(x[0] == 58 && x[1] == 58 && x[6] == 58);
    }
    assert(s[p + 2] == 102 && s[p + 3] == 102 && s[p + 4] == 102 && s[p + 5] == 102) by {
        assert(x[2] == 102 && x[3] == 102 && x[4] == 102 && x[5] == 102);
    }
    lemma_no_groups_at(s, p, 8);
    assert(digit_run_end(s, p + 2) == p + 2);
    assert(s.subrange(p + 2, p + 2).len() == 0);
    lemma_hex_run(s, p + 2, p + 6);
    let ff = seq![102u8, 102u8, 102u8, 102u8];
    assert(s.subrange(p + 2, p + 6) =~= ff);
    assert(ff.drop_last() =~= seq![102u8, 102u8, 102u8]);
    assert(ff.drop_last().drop_last() =~= seq![102u8, 102u8]);
    assert(ff.drop_last().drop_last().drop_last() =~= seq![102u8]);
    assert(seq![102u8].drop_last() =~= Seq::<u8>::empty());
    assert(hex_value(Seq::<u8>::empty()) == 0);
    assert(seq![102u8].last() == 102u8);
    assert(seq![102u8, 102u8].last() == 102u8);
    assert(seq![102u8, 102u8, 102u8].last() == 102u8);
    assert(ff.last() == 102u8);
    assert(hex_digit_value(102u8) == 15);
    assert(hex_value(seq![102u8]) == 15);
    assert(hex_value(seq![102u8, 102u8]) == 255);
    assert(hex_value(seq![102u8, 102u8, 102u8]) == 4095);
    assert(hex_value(ff) == 65535);
    assert(group_at(s, p + 2) == Some((0xffffu16, p + 6)));
    lemma_read_ipv4(s, p + 7, v4);
    assert(sep_ipv4_at(s, p + 6, 1) == Some((v4, end)));
    assert(groups_from(s, p + 6, 1, 7) == (ipv4_segments(v4), true, end));
    assert(groups_from(s, p + 2, 0, 7).0 == seq![0xffffu16] + ipv4_segments(v4));
    assert(groups_from(s, p + 2, 0, 7).2 == end);
    assert(((ip.s6 / 256) as u8) * 256 + ((ip.s6 % 256) as u8) == ip.s6);
    assert(((ip.s7 / 256) as u8) * 256 + ((ip.s7 % 256) as u8) == ip.s7);
    let whole = Seq::<u16>::empty() + zero_groups(5) + (seq![0xffffu16] + ipv4_segments(v4));
    assert(whole =~= g);
}

#[verifier::spinoff_prover]
#[verifier::rlimit(60)]
proof fn lemma_read_ipv6_compressed(s: Seq<u8>, p: int, ip: Ipv6)
    requires
        0 <= p,
        p + ascii_bytes(ipv6_text(ip)).len() < s.len(),
        s.subrange(p, p + ascii_bytes(ipv6_text(ip)).len()) == ascii_bytes(ipv6_text(ip)),
        s[p + ascii_bytes(ipv6_text(ip)).len()] == 93 || s[p + ascii_bytes(ipv6_text(ip)).len()] == 37,
        !is_ipv4_mapped(ip),
        longest_zero_run(ip.segs()).1 > 1,
    ensures
        ipv6_at(s, p) == Some((ip, p + ascii_bytes(ipv6_text(ip)).len())),
{
    let x = ascii_bytes(ipv6_text(ip));
    let end = p + x.len();
    let g = ip.segs();
    assert(ipv6_of(g) == ip);
    assert forall|j: int| 0 <= j < x.len() implies s[p + j] == #[trigger] x[j] by {
        assert(s.subrange(p, end)[j] == s[p + j]);
    }
    let z = longest_zero_run(g);
    lemma_zero_scan(g, 0, 0, 0, 0, 0);
    let st = z.0 as int;
    let ln = z.1 as int;
    let g1 = g.subrange(0, st);
    let g2 = g.subrange(st + ln, 8);
    let h = ascii_bytes(groups_text(g1));
    let t = ascii_bytes(groups_text(g2));
    let c = seq![58u8, 58u8];
    lemma_ascii_concat(groups_text(g1) + seq![':', ':'], groups_text(g2));
    lemma_ascii_concat(groups_text(g1), seq![':', ':']);
    assert(ascii_bytes(seq![':', ':']) =~= c);
    assert(x == h + c + t);
    lemma_split(s, p, h + c, t);
    lemma_split(s, p, h, c);
    let q = p + h.len();
    assert(s[q] == 58 && s[q + 1] == 58) by {
        assert(s.subrange(q, q + 2)[0] == s[q]);
        assert(s.subrange(q, q + 2)[1] == s[q + 1]);
    }
    if st == 0 {
        assert(g1.len() == 0);
        assert(h.len() == 0);
        lemma_no_groups_at(s, p, 8);
    } else {
        assert(groups_bytes(g1, 0) == h);
        lemma_read_groups(s, p, g1, 0, 8);
    }
    assert(groups_from(s, p, 0, 8) == (g1, false, q));
    let q2 = q + 2;
    let limit = (7 - st) as nat;
    if g2.len() == 0 {
        assert(t.len() == 0);
        lemma_no_groups_at(s, q2, limit);
    } else {
        assert(groups_bytes(g2, 0) == t);
        lemma_read_groups(s, q2, g2, 0, limit);
    }
    assert(groups_from(s, q2, 0, limit) == (g2, false, end));
    assert(g1 + zero_groups(8 - g1.len() - g2.len()) + g2 =~= g);
}

/// The text of an IPv6 address, read back.
#[verifier::spinoff_prover]
#[verifier::rlimit(60)]
proof fn lemma_read_ipv6(s: Seq<u8>, p: int, ip: Ipv6)
    requires
        0 <= p,
        p + ascii_bytes(ipv6_text(ip)).len() < s.len(),
        s.subrange(p, p + ascii_bytes(ipv6_text(ip)).len()) == ascii_bytes(ipv6_text(ip)),
        s[p + ascii_bytes(ipv6_text(ip)).len()] == 93 || s[p + ascii_bytes(ipv6_text(ip)).len()] == 37,
    ensures
        ipv6_at(s, p) == Some((ip, p + ascii_bytes(ipv6_text(ip)).len())),
{
    if is_ipv4_mapped(ip) {
        lemma_read_ipv6_mapped(s, p, ip);
    } else if longest_zero_run(ip.segs()).1 > 1 {
        lemma_read_ipv6_compressed(s, p, ip);
    } else {
        let x = ascii_bytes(ipv6_text(ip));
        let g = ip.segs();
        assert(ipv6_of(g) == ip);
        assert(groups_bytes(g, 0) == x);
        lemma_read_groups(s, p, g, 0, 8);
    }
}

proof fn lemma_not_v4(s: Seq<u8>)
    requires
        s.len() > 0,
        s[0] == 91,
    ensures
        parse_v4(s) is None,
{
    assert forall|i1: int, i2: int, i3: int, i4: int| !addr_fields_at(s, i1, i2, i3, i4) by {
        if 0 < i1 <= s.len() {
            assert(s.subrange(0, i1)[0] == s[0]);
            assert(!is_digit(s.subrange(0, i1)[0]));
        }
    }
}

#[verifier::spinoff_prover]
proof fn lemma_read_scope(s: Seq<u8>, e: int, scope: u32)
    requires
        0 <= e,
        e + 1 + decimal(scope as nat).len() < s.len(),
        s.subrange(e, e + 1 + decimal(scope as nat).len()) == seq![37u8] + ascii_bytes(decimal(scope as nat)),
        !is_digit(s[e + 1 + decimal(scope as nat).len()]),
    ensures
        scope_at(s, e) == Some((scope, e + 1 + decimal(scope as nat).len())),
{
    lemma_decimal(scope as nat);
    let db = ascii_bytes(decimal(scope as nat));
    let e2 = e + 1 + db.len();
    lemma_split(s, e, seq![37u8], db);
    assert(s[e] == 37) by {
        assert(s.subrange(e, e + 1)[0] == s[e]);
    }
    assert forall|j: int| e + 1 <= j < e2 implies is_digit(#[trigger] s[j]) by {
        assert(s.subrange(e + 1, e2)[j - e - 1] == s[j]);
        assert(db[j - e - 1] == decimal(scope as nat)[j - e - 1] as u8);
    }
    lemma_digit_run(s, e + 1, e2);
}

/// The characters of the scope part of an IPv6 socket address's text.
spec fn scope_text(scope: u32) -> Seq<char> {
    if scope == 0 {
        Seq::<char>::empty()
    } else {
        seq!['%'] + decimal(scope as nat)
    }
}

#[verifier::spinoff_prover]
#[verifier::rlimit(60)]
proof fn lemma_v6_text_bytes(a: PeerAddr)
    requires
        a is V6,
    ensures
        encode_utf8(addr_text(a)) == seq![91u8] + ascii_bytes(ipv6_text(a->V6_ip)) + ascii_bytes(scope_text(a->V6_scope_id))
            + seq![93u8, 58u8] + ascii_bytes(decimal(a->V6_port as nat)),
{
    broadcast use vstd::utf8::is_ascii_chars_concat;

    let ip = a->V6_ip;
    let port = a->V6_port;
    let scope = a->V6_scope_id;
    let sc = scope_text(scope);
    let t = addr_text(a);
    assert(t == seq!['['] + ipv6_text(ip) + sc + seq![']', ':'] + decimal(port as nat));
    lemma_ipv6_ascii(ip);
    lemma_decimal(scope as nat);
    lemma_decimal(port as nat);
    assert(is_ascii_chars(seq!['[']) && is_ascii_chars(seq![']', ':']) && is_ascii_chars(seq!['%']));
    assert(is_ascii_chars(decimal(scope as nat)) && is_ascii_chars(decimal(port as nat)));
    assert(is_ascii_chars(sc));
    assert(is_ascii_chars(seq!['['] + ipv6_text(ip)));
    assert(is_ascii_chars(seq!['['] + ipv6_text(ip) + sc));
    assert(is_ascii_chars(seq!['['] + ipv6_text(ip) + sc + seq![']', ':']));
    assert(is_ascii_chars(t));
    vstd::utf8::is_ascii_chars_encode_utf8(t);
    assert(encode_utf8(t) =~= ascii_bytes(t));
    assert(ascii_bytes(t) =~= seq![91u8] + ascii_bytes(ipv6_text(ip)) + ascii_bytes(sc) + seq![93u8, 58u8]
        + ascii_bytes(decimal(port as nat)));
}

/// The text of an IPv6 socket address without a flow label reads back as
/// the same address.
#[verifier::spinoff_prover]
#[verifier::rlimit(60)]
proof fn v6_text_reads_back(a: PeerAddr)
    requires
        a matches PeerAddr::V6 { flowinfo, .. } && flowinfo == 0,
    ensures
        parse_addr(encode_utf8(addr_text(a))) == Some(a),
{
    let ip = a->V6_ip;
    let port = a->V6_port;
    let scope = a->V6_scope_id;
    lemma_v6_text_bytes(a);
    lemma_decimal(port as nat);
    let s = encode_utf8(addr_text(a));
    let b = seq![91u8];
    let x = ascii_bytes(ipv6_text(ip));
    let sb = ascii_bytes(scope_text(scope));
    let qb = seq![93u8, 58u8];
    let pb = ascii_bytes(decimal(port as nat));
    assert(s.subrange(0, s.len() as int) =~= s);
    lemma_split(s, 0, b + x + sb + qb, pb);
    lemma_split(s, 0, b + x + sb, qb);
    lemma_split(s, 0, b + x, sb);
    lemma_split(s, 0, b, x);
    let e: int = 1 + x.len() as int;
    let e2: int = e + sb.len();
    assert(s[0] == 91) by {
        assert(s.subrange(0, 1)[0] == s[0]);
    }
    assert(s[e2] == 93 && s[e2 + 1] == 58) by {
        assert(s.subrange(e2, e2 + 2)[0] == s[e2]);
        assert(s.subrange(e2, e2 + 2)[1] == s[e2 + 1]);
    }
    if scope == 0 {
        assert(sb.len() == 0);
        assert(scope_at(s, e) is None);
    } else {
        lemma_decimal(scope as nat);
        let db = ascii_bytes(decimal(scope as nat));
        assert(sb =~= seq![37u8] + db);
        lemma_read_scope(s, e, scope);
        assert(scope_at(s, e) == Some((scope, e2)));
    }
    lemma_read_ipv6(s, 1, ip);
    assert(ipv6_at(s, 1) == Some((ip, e)));
    assert(s.subrange(e2 + 2, s.len() as int) == pb);
    assert(parse_v6(s) == Some(a));
    lemma_not_v4(s);
}

/// The text of a socket address reads back as the same address; an IPv6
/// flow label, which the text does not show, must be zero.
pub proof fn parse_reads_back_text(a: PeerAddr)
    requires
        a matches PeerAddr::V6 { flowinfo, .. } ==> flowinfo == 0,
    ensures
        parse_addr(encode_utf8(addr_text(a))) == Some(a),
{
    if a is V4 {
        v4_text_reads_back(a);
    } else {
        v6_text_reads_back(a);
    }
}

#[verifier::spinoff_prover]
#[verifier::rlimit(50)]
proof fn v4_text_reads_back(a: PeerAddr)
    requires
        a is V4,
    ensures
        parse_v4(encode_utf8(addr_text(a))) == Some(a),
{
    broadcast use vstd::utf8::is_ascii_chars_concat;

    let ip = a->V4_ip;
    let port = a->V4_port;
    let d1 = decimal(ip.a as nat);
    let d2 = decimal(ip.b as nat);
    let d3 = decimal(ip.c as nat);
    let d4 = decimal(ip.d as nat);
    let d5 = decimal(port as nat);
    lemma_decimal(ip.a as nat);
    lemma_decimal(ip.b as nat);
    lemma_decimal(ip.c as nat);
    lemma_decimal(ip.d as nat);
    lemma_decimal(port as nat);
    let t = addr_text(a);
    assert(is_ascii_chars(seq!['.']));
    assert(is_ascii_chars(seq![':']));
    assert(is_ascii_chars(d1) && is_ascii_chars(d2) && is_ascii_chars(d3) && is_ascii_chars(d4) && is_ascii_chars(d5));
    assert(is_ascii_chars(t));
    vstd::utf8::is_ascii_chars_encode_utf8(t);
    let s = encode_utf8(t);
    let dot = seq![46u8];
    let colon = seq![58u8];
    assert(s =~= ascii_bytes(d1) + dot + ascii_bytes(d2) + dot + ascii_bytes(d3) + dot + ascii_bytes(d4) + colon
        + ascii_bytes(d5));
    let i1 = d1.len() as int;
    let i2 = i1 + 1 + d2.len();
    let i3 = i2 + 1 + d3.len();
    let i4 = i3 + 1 + d4.len();
    assert(s.subrange(0, i1) =~= ascii_bytes(d1));
    assert(s.subrange(i1 + 1, i2) =~= ascii_bytes(d2));
    assert(s.subrange(i2 + 1, i3) =~= ascii_bytes(d3));
    assert(s.subrange(i3 + 1, i4) =~= ascii_bytes(d4));
    assert(s.subrange(i4 + 1, s.len() as int) =~= ascii_bytes(d5));
    assert(ascii_bytes(d1).len() > 1 ==> ascii_bytes(d1)[0] != 48);
    assert(ascii_bytes(d2).len() > 1 ==> ascii_bytes(d2)[0] != 48);
    assert(ascii_bytes(d3).len() > 1 ==> ascii_bytes(d3)[0] != 48);
    assert(ascii_bytes(d4).len() > 1 ==> ascii_bytes(d4)[0] != 48);
    assert(addr_fields_at(s, i1, i2, i3, i4));
    assert(addr_at(s, i1, i2, i3, i4) == a);
    let f = choose_fields(s);
    lemma_fields_forced(s, i1, i2, i3, i4);
    lemma_run_unique(s, 0, f.0, i1);
    lemma_run_unique(s, i1 + 1, f.1, i2);
    lemma_run_unique(s, i2 + 1, f.2, i3);
    lemma_run_unique(s, i3 + 1, f.3, i4);
}

} // verus!

verus! {

/// An IPv4 address read as the 32-bit number it stands for.
pub open spec fn ipv4_number(ip: Ipv4) -> int {
    ip.a * 0x100_0000 + ip.b * 0x1_0000 + ip.c * 0x100 + ip.d
}

/// An IPv6 address read as the 128-bit number it stands for.
pub open spec fn ipv6_number(ip: Ipv6) -> int {
    ip.s0 * 0x1_0000_0000_0000_0000_0000_0000_0000 + ip.s1 * 0x1_0000_0000_0000_0000_0000_0000
        + ip.s2 * 0x1_0000_0000_0000_0000_0000 + ip.s3 * 0x1_0000_0000_0000_0000 + ip.s4 * 0x1_0000_0000_0000
        + ip.s5 * 0x1_0000_0000 + ip.s6 * 0x1_0000 + ip.s7
}

/// Addresses are ordered as numbers: every IPv4 address comes before every
/// IPv6 address; two addresses of one family with different IP addresses
/// are ordered by the numbers those stand for, and with the same IP
/// address by port.
pub proof fn addr_order_is_numeric(x: PeerAddr, y: PeerAddr)
    ensures
        x is V4 && y is V6 ==> addr_lt(x, y) && !addr_lt(y, x),
        x is V4 && y is V4 && x->V4_ip != y->V4_ip ==> (addr_lt(x, y) <==> ipv4_number(x->V4_ip) < ipv4_number(
            y->V4_ip,
        )),
        x is V4 && y is V4 && x->V4_ip == y->V4_ip ==> (addr_lt(x, y) <==> x->V4_port < y->V4_port),
        x is V6 && y is V6 && x->V6_ip != y->V6_ip ==> (addr_lt(x, y) <==> ipv6_number(x->V6_ip) < ipv6_number(
            y->V6_ip,
        )),
        x is V6 && y is V6 && x->V6_ip == y->V6_ip ==> (addr_lt(x, y) <==> x->V6_port < y->V6_port),
{
    if x is V4 && y is V4 && x->V4_ip != y->V4_ip {
        lemma_ipv4_numeric(x->V4_ip, y->V4_ip);
    }
    if x is V6 && y is V6 && x->V6_ip != y->V6_ip {
        lemma_ipv6_numeric(x->V6_ip, y->V6_ip);
    }
}

proof fn lemma_ipv4_numeric(p: Ipv4, q: Ipv4)
    requires
        p != q,
    ensures
        ipv4_lt(p, q) <==> ipv4_number(p) < ipv4_number(q),
{
}

proof fn lemma_ipv6_numeric(p: Ipv6, q: Ipv6)
    requires
        p != q,
    ensures
        ipv6_lt(p, q) <==> ipv6_number(p) < ipv6_number(q),
{
}

} // verus!
