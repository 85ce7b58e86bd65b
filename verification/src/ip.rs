//! Network addresses and their text: dotted IPv4, colon-separated IPv6 with
//! its `::` shorthand and embedded IPv4 tail, and either of them with a port.

use crate::digits::{has_byte, push_number, read_number, render, scan_number};
use vstd::prelude::*;

verus! {

/// An IP address with a port.
#[derive(Debug, Clone, Copy, PartialEq, Eq, Hash)]
#[allow(inconsistent_fields)]
pub enum NetAddr {
    /// An IPv4 address, most significant octet first, and a port.
    V4 { ip: [u8; 4], port: u16 },
    /// An IPv6 address as eight 16-bit groups, most significant first, with
    /// port, flow information and scope identifier.
    V6 { ip: [u16; 8], port: u16, flowinfo: u32, scope_id: u32 },
}

/// The mathematical value of a `NetAddr`.
#[allow(inconsistent_fields)]
pub enum NetAddrView {
    /// Four octets and a port.
    V4 { ip: Seq<u8>, port: u16 },
    /// Eight groups, with port, flow information and scope identifier.
    V6 { ip: Seq<u16>, port: u16, flowinfo: u32, scope_id: u32 },
}

impl NetAddrView {
    /// An IPv4 address has four octets, an IPv6 address eight groups.
    pub open spec fn wf(self) -> bool {
        match self {
            NetAddrView::V4 { ip, .. } => ip.len() == 4,
            NetAddrView::V6 { ip, .. } => ip.len() == 8,
        }
    }
}

impl View for NetAddr {
    type V = NetAddrView;

    open spec fn view(&self) -> NetAddrView {
        match *self {
            NetAddr::V4 { ip, port } => NetAddrView::V4 { ip: ip@, port },
            NetAddr::V6 { ip, port, flowinfo, scope_id } => NetAddrView::V6 {
                ip: ip@,
                port,
                flowinfo,
                scope_id,
            },
        }
    }
}

/// The dot between octets.
pub const DOT: u8 = 0x2e;

/// The colon between groups, and before a port.
pub const COLON: u8 = 0x3a;

/// The percent sign before a scope identifier.
pub const PERCENT: u8 = 0x25;

/// The bracket that opens an IPv6 address before a port.
pub const OPEN: u8 = 0x5b;

/// The bracket that closes it.
pub const CLOSE: u8 = 0x5d;

/// Reads one octet: up to three decimal digits, no zero before another digit.
pub open spec fn read_octet(s: Seq<u8>, pos: int) -> Option<(nat, int)> {
    read_number(s, pos, false, Some(3nat), false, 255)
}

/// Reads a dot and the octet after it.
pub open spec fn read_next_octet(s: Seq<u8>, pos: int) -> Option<(nat, int)> {
    if has_byte(s, pos, DOT) {
        read_octet(s, pos + 1)
    } else {
        None
    }
}

/// Reads four octets separated by dots.
pub open spec fn read_ipv4(s: Seq<u8>, pos: int) -> Option<(Seq<u8>, int)> {
    match read_octet(s, pos) {
        Some((a, p1)) => match read_next_octet(s, p1) {
            Some((b, p2)) => match read_next_octet(s, p2) {
                Some((c, p3)) => match read_next_octet(s, p3) {
                    Some((d, p4)) => Some((seq![a as u8, b as u8, c as u8, d as u8], p4)),
                    None => None,
                },
                None => None,
            },
            None => None,
        },
        None => None,
    }
}

/// Reads one group: up to four hexadecimal digits. Every group but the first
/// follows a colon.
pub open spec fn read_group(s: Seq<u8>, pos: int, first: bool) -> Option<(nat, int)> {
    if first {
        read_number(s, pos, true, Some(4nat), true, 0xffff)
    } else if has_byte(s, pos, COLON) {
        read_number(s, pos + 1, true, Some(4nat), true, 0xffff)
    } else {
        None
    }
}

/// Reads an IPv4 address in the place of two groups.
pub open spec fn read_embedded_ipv4(s: Seq<u8>, pos: int, first: bool) -> Option<(Seq<u8>, int)> {
    if first {
        read_ipv4(s, pos)
    } else if has_byte(s, pos, COLON) {
        read_ipv4(s, pos + 1)
    } else {
        None
    }
}

/// The two groups that four octets fill.
pub open spec fn groups_of_octets(o: Seq<u8>) -> Seq<u16> {
    seq![(o[0] as nat * 256 + o[1] as nat) as u16, (o[2] as nat * 256 + o[3] as nat) as u16]
}

/// Reads groups number `i` up to `limit`: as many as the text has, the
/// position after them, and whether an embedded IPv4 address ended them.
/// Such an address is tried first wherever two groups are still free.
pub open spec fn read_groups(s: Seq<u8>, pos: int, i: nat, limit: nat) -> (Seq<u16>, int, bool)
    decreases limit - i,
{
    if i >= limit {
        (Seq::empty(), pos, false)
    } else {
        let embedded = if i + 1 < limit {
            read_embedded_ipv4(s, pos, i == 0)
        } else {
            None
        };
        match embedded {
            Some((octets, end)) => (groups_of_octets(octets), end, true),
            None => match read_group(s, pos, i == 0) {
                Some((g, next)) => {
                    let (rest, end, ipv4) = read_groups(s, next, i + 1, limit);
                    (seq![g as u16] + rest, end, ipv4)
                },
                None => (Seq::empty(), pos, false),
            },
        }
    }
}

/// Reads an IPv6 address: eight groups, or fewer around one `::` that stands
/// for the groups of zeros that are missing, at least one.
pub open spec fn read_ipv6(s: Seq<u8>, pos: int) -> Option<(Seq<u16>, int)> {
    let (head, p1, head_ipv4) = read_groups(s, pos, 0, 8);
    if head.len() == 8 {
        Some((head, p1))
    } else if head_ipv4 {
        None
    } else if has_byte(s, p1, COLON) && has_byte(s, p1 + 1, COLON) {
        let (tail, p2, _) = read_groups(s, p1 + 2, 0, (7 - head.len()) as nat);
        Some((head + Seq::new((8 - head.len() - tail.len()) as nat, |i: int| 0u16) + tail, p2))
    } else {
        None
    }
}

/// Reads a colon and a port in decimal digits.
pub open spec fn read_port(s: Seq<u8>, pos: int) -> Option<(nat, int)> {
    if has_byte(s, pos, COLON) {
        read_number(s, pos + 1, false, None, true, 0xffff)
    } else {
        None
    }
}

/// Reads a percent sign and a scope identifier in decimal digits.
pub open spec fn read_scope(s: Seq<u8>, pos: int) -> Option<(nat, int)> {
    if has_byte(s, pos, PERCENT) {
        read_number(s, pos + 1, false, None, true, 0xffff_ffff)
    } else {
        None
    }
}

/// Reads an IPv4 address and a port.
pub open spec fn read_socket_v4(s: Seq<u8>, pos: int) -> Option<(NetAddrView, int)> {
    match read_ipv4(s, pos) {
        Some((ip, p1)) => match read_port(s, p1) {
            Some((port, p2)) => Some((NetAddrView::V4 { ip, port: port as u16 }, p2)),
            None => None,
        },
        None => None,
    }
}

/// Reads an IPv6 address in square brackets, with a scope identifier if one
/// is written, and a port.
pub open spec fn read_socket_v6(s: Seq<u8>, pos: int) -> Option<(NetAddrView, int)> {
    if has_byte(s, pos, OPEN) {
        match read_ipv6(s, pos + 1) {
            Some((ip, p1)) => {
                let (scope, p2) = match read_scope(s, p1) {
                    Some((scope, p)) => (scope, p),
                    None => (0nat, p1),
                };
                if has_byte(s, p2, CLOSE) {
                    match read_port(s, p2 + 1) {
                        Some((port, p3)) => Some(
                            (
                                NetAddrView::V6 {
                                    ip,
                                    port: port as u16,
                                    flowinfo: 0,
                                    scope_id: scope as u32,
                                },
                                p3,
                            ),
                        ),
                        None => None,
                    }
                } else {
                    None
                }
            },
            None => None,
        }
    } else {
        None
    }
}

/// The network address that a whole text spells, if it spells one: an IPv4
/// address with a port, or else a bracketed IPv6 address with a port, and
/// nothing after it.
pub open spec fn socket_addr_of_text(s: Seq<u8>) -> Option<NetAddrView> {
    match read_socket_v4(s, 0) {
        Some((addr, end)) => if end == s.len() {
            Some(addr)
        } else {
            None
        },
        None => match read_socket_v6(s, 0) {
            Some((addr, end)) => if end == s.len() {
                Some(addr)
            } else {
                None
            },
            None => None,
        },
    }
}

/// The text of an IPv4 address.
pub open spec fn text_ipv4(ip: Seq<u8>) -> Seq<u8> {
    render(ip[0] as nat, false) + seq![DOT] + render(ip[1] as nat, false) + seq![DOT] + render(
        ip[2] as nat,
        false,
    ) + seq![DOT] + render(ip[3] as nat, false)
}

/// Groups in hexadecimal, each after a colon.
pub open spec fn sep_groups(groups: Seq<u16>) -> Seq<u8>
    decreases groups.len(),
{
    if groups.len() == 0 {
        Seq::empty()
    } else {
        seq![COLON] + render(groups[0] as nat, true) + sep_groups(groups.skip(1))
    }
}

/// Groups in hexadecimal with colons between them.
pub open spec fn join_groups(groups: Seq<u16>) -> Seq<u8> {
    if groups.len() == 0 {
        Seq::empty()
    } else {
        render(groups[0] as nat, true) + sep_groups(groups.skip(1))
    }
}

/// Whether the address is an IPv4 address mapped into IPv6: five groups of
/// zeros, then one of ones.
pub open spec fn is_ipv4_mapped(ip: Seq<u16>) -> bool {
    ip[0] == 0 && ip[1] == 0 && ip[2] == 0 && ip[3] == 0 && ip[4] == 0 && ip[5] == 0xffff
}

/// The octets that two groups hold.
pub open spec fn octets_of_groups(high: u16, low: u16) -> Seq<u8> {
    seq![(high / 256) as u8, (high % 256) as u8, (low / 256) as u8, (low % 256) as u8]
}

/// The number of groups of zeros in a row from group `i` on.
pub open spec fn zero_run_at(ip: Seq<u16>, i: int) -> nat
    decreases 8 - i,
{
    if 0 <= i < 8 && ip[i] == 0 {
        1 + zero_run_at(ip, i + 1)
    } else {
        0
    }
}

/// Start and length of the longest row of zero groups from group `i` on, the
/// first of them where several are as long; length zero where there is none.
pub open spec fn longest_zero_run(ip: Seq<u16>, i: int) -> (int, nat)
    decreases 8 - i,
{
    if 0 <= i < 8 {
        let here = zero_run_at(ip, i);
        let later = longest_zero_run(ip, i + 1);
        if here > 0 && here >= later.1 {
            (i, here)
        } else {
            later
        }
    } else {
        (0, 0)
    }
}

/// The opening of a mapped address: `::ffff:`.
pub open spec fn mapped_prefix() -> Seq<u8> {
    seq![COLON, COLON, 0x66u8, 0x66u8, 0x66u8, 0x66u8, COLON]
}

/// The text of an IPv6 address: a mapped IPv4 address in dotted form after
/// `::ffff:`; otherwise the groups in hexadecimal, the longest row of two or
/// more zero groups shortened to `::`.
pub open spec fn text_ipv6(ip: Seq<u16>) -> Seq<u8> {
    if is_ipv4_mapped(ip) {
        mapped_prefix() + text_ipv4(octets_of_groups(ip[6], ip[7]))
    } else {
        let (start, len) = longest_zero_run(ip, 0);
        if len > 1 {
            join_groups(ip.take(start)) + seq![COLON, COLON] + join_groups(ip.skip(start + len))
        } else {
            join_groups(ip)
        }
    }
}

/// The scope identifier as it is written after an IPv6 address: nothing for
/// zero.
pub open spec fn text_scope(scope_id: u32) -> Seq<u8> {
    if scope_id == 0 {
        Seq::empty()
    } else {
        seq![PERCENT] + render(scope_id as nat, false)
    }
}

/// The text of a network address. The flow information is not written.
pub open spec fn text_socket_addr(addr: NetAddrView) -> Seq<u8> {
    match addr {
        NetAddrView::V4 { ip, port } => text_ipv4(ip) + seq![COLON] + render(port as nat, false),
        NetAddrView::V6 { ip, port, scope_id, .. } => seq![OPEN] + text_ipv6(ip) + text_scope(
            scope_id,
        ) + seq![CLOSE, COLON] + render(port as nat, false),
    }
}

fn scan_octet(s: &[u8], pos: usize) -> (r: Option<(u8, usize)>)
    requires
        pos <= s@.len(),
    ensures
        match r {
            Some((v, end)) => read_octet(s@, pos as int) == Some((v as nat, end as int)) && pos
                < end <= s@.len(),
            None => read_octet(s@, pos as int) is None,
        },
{
    match scan_number(s, pos, false, Some(3), false, 255) {
        Some((v, end)) => Some((v as u8, end)),
        None => None,
    }
}

fn scan_next_octet(s: &[u8], pos: usize) -> (r: Option<(u8, usize)>)
    requires
        pos <= s@.len(),
    ensures
        match r {
            Some((v, end)) => read_next_octet(s@, pos as int) == Some((v as nat, end as int))
                && pos < end <= s@.len(),
            None => read_next_octet(s@, pos as int) is None,
        },
{
    if pos < s.len() && s[pos] == DOT {
        scan_octet(s, pos + 1)
    } else {
        None
    }
}

fn scan_ipv4(s: &[u8], pos: usize) -> (r: Option<([u8; 4], usize)>)
    requires
        pos <= s@.len(),
    ensures
        match r {
            Some((ip, end)) => read_ipv4(s@, pos as int) == Some((ip@, end as int)) && pos < end
                <= s@.len(),
            None => read_ipv4(s@, pos as int) is None,
        },
{
    let (a, p1) = match scan_octet(s, pos) {
        Some(found) => found,
        None => {
            return None;
        },
    };
    let (b, p2) = match scan_next_octet(s, p1) {
        Some(found) => found,
        None => {
            return None;
        },
    };
    let (c, p3) = match scan_next_octet(s, p2) {
        Some(found) => found,
        None => {
            return None;
        },
    };
    let (d, p4) = match scan_next_octet(s, p3) {
        Some(found) => found,
        None => {
            return None;
        },
    };
    let ip: [u8; 4] = [a, b, c, d];
    assert(ip@ =~= seq![a, b, c, d]);
    Some((ip, p4))
}

fn scan_group(s: &[u8], pos: usize, first: bool) -> (r: Option<(u16, usize)>)
    requires
        pos <= s@.len(),
    ensures
        match r {
            Some((v, end)) => read_group(s@, pos as int, first) == Some((v as nat, end as int))
                && pos < end <= s@.len(),
            None => read_group(s@, pos as int, first) is None,
        },
{
    let from = if first {
        pos
    } else if pos < s.len() && s[pos] == COLON {
        pos + 1
    } else {
        return None;
    };
    match scan_number(s, from, true, Some(4), true, 0xffff) {
        Some((v, end)) => Some((v as u16, end)),
        None => None,
    }
}

fn scan_embedded_ipv4(s: &[u8], pos: usize, first: bool) -> (r: Option<([u8; 4], usize)>)
    requires
        pos <= s@.len(),
    ensures
        match r {
            Some((ip, end)) => read_embedded_ipv4(s@, pos as int, first) == Some(
                (ip@, end as int),
            ) && pos < end <= s@.len(),
            None => read_embedded_ipv4(s@, pos as int, first) is None,
        },
{
    if first {
        scan_ipv4(s, pos)
    } else if pos < s.len() && s[pos] == COLON {
        scan_ipv4(s, pos + 1)
    } else {
        None
    }
}

/// Reads groups number `i` up to `limit` onto the end of `out`. Gives the
/// position after them, and whether an embedded IPv4 address ended them.
fn scan_groups(s: &[u8], pos: usize, i: usize, limit: usize, out: &mut Vec<u16>) -> (r: (
    usize,
    bool,
))
    requires
        pos <= s@.len(),
        i <= limit <= 8,
    ensures
        final(out)@ == old(out)@ + read_groups(s@, pos as int, i as nat, limit as nat).0,
        r.0 == read_groups(s@, pos as int, i as nat, limit as nat).1,
        r.1 == read_groups(s@, pos as int, i as nat, limit as nat).2,
        read_groups(s@, pos as int, i as nat, limit as nat).0.len() <= limit - i,
        pos <= r.0 <= s@.len(),
    decreases limit - i,
{
    if i >= limit {
        assert(out@ + Seq::<u16>::empty() =~= out@);
        return (pos, false);
    }
    if i + 1 < limit {
        match scan_embedded_ipv4(s, pos, i == 0) {
            Some((octets, end)) => {
                let high: u16 = octets[0] as u16 * 256 + octets[1] as u16;
                let low: u16 = octets[2] as u16 * 256 + octets[3] as u16;
                out.push(high);
                out.push(low);
                assert(out@ =~= old(out)@ + groups_of_octets(octets@));
                return (end, true);
            },
            None => {},
        }
    }
    match scan_group(s, pos, i == 0) {
        Some((g, next)) => {
            out.push(g);
            let ghost mid = out@;
            let r = scan_groups(s, next, i + 1, limit, out);
            proof {
                let rest = read_groups(s@, next as int, (i + 1) as nat, limit as nat).0;
                assert(mid + rest =~= old(out)@ + (seq![g] + rest));
            }
            r
        },
        None => {
            assert(out@ + Seq::<u16>::empty() =~= out@);
            (pos, false)
        },
    }
}

fn scan_ipv6(s: &[u8], pos: usize) -> (r: Option<([u16; 8], usize)>)
    requires
        pos <= s@.len(),
    ensures
        match r {
            Some((ip, end)) => read_ipv6(s@, pos as int) == Some((ip@, end as int)) && pos <= end
                <= s@.len(),
            None => read_ipv6(s@, pos as int) is None,
        },
{
    let mut groups: Vec<u16> = Vec::new();
    let (p1, head_ipv4) = scan_groups(s, pos, 0, 8, &mut groups);
    let ghost head = groups@;
    assert(head =~= read_groups(s@, pos as int, 0, 8).0);
    let mut end = p1;
    if groups.len() < 8 {
        if head_ipv4 {
            return None;
        }
        if !(p1 < s.len() && s[p1] == COLON && p1 + 1 < s.len() && s[p1 + 1] == COLON) {
            return None;
        }
        let head_len = groups.len();
        let mut tail: Vec<u16> = Vec::new();
        let (p2, _) = scan_groups(s, p1 + 2, 0, 7 - head_len, &mut tail);
        assert(tail@ =~= read_groups(s@, p1 + 2, 0, (7 - head_len) as nat).0);
        let zeros = 8 - head_len - tail.len();
        let mut k: usize = 0;
        while k < zeros
            invariant
                k <= zeros,
                groups@ == head + Seq::new(k as nat, |i: int| 0u16),
            decreases zeros - k,
        {
            groups.push(0);
            assert(groups@ =~= head + Seq::new((k + 1) as nat, |i: int| 0u16));
            k = k + 1;
        }
        let mut j: usize = 0;
        while j < tail.len()
            invariant
                j <= tail@.len(),
                groups@ == head + Seq::new(zeros as nat, |i: int| 0u16) + tail@.take(j as int),
            decreases tail@.len() - j,
        {
            groups.push(tail[j]);
            assert(groups@ =~= head + Seq::new(zeros as nat, |i: int| 0u16) + tail@.take(j + 1));
            j = j + 1;
        }
        assert(tail@.take(j as int) =~= tail@);
        end = p2;
    }
    let ip: [u16; 8] = [
        groups[0],
        groups[1],
        groups[2],
        groups[3],
        groups[4],
        groups[5],
        groups[6],
        groups[7],
    ];
    assert(ip@ =~= groups@);
    Some((ip, end))
}

fn scan_port(s: &[u8], pos: usize) -> (r: Option<(u16, usize)>)
    requires
        pos <= s@.len(),
    ensures
        match r {
            Some((v, end)) => read_port(s@, pos as int) == Some((v as nat, end as int)) && pos
                < end <= s@.len(),
            None => read_port(s@, pos as int) is None,
        },
{
    if pos < s.len() && s[pos] == COLON {
        match scan_number(s, pos + 1, false, None, true, 0xffff) {
            Some((v, end)) => Some((v as u16, end)),
            None => None,
        }
    } else {
        None
    }
}

fn scan_scope(s: &[u8], pos: usize) -> (r: Option<(u32, usize)>)
    requires
        pos <= s@.len(),
    ensures
        match r {
            Some((v, end)) => read_scope(s@, pos as int) == Some((v as nat, end as int)) && pos
                < end <= s@.len(),
            None => read_scope(s@, pos as int) is None,
        },
{
    if pos < s.len() && s[pos] == PERCENT {
        scan_number(s, pos + 1, false, None, true, 0xffff_ffff)
    } else {
        None
    }
}

fn scan_socket_v4(s: &[u8], pos: usize) -> (r: Option<(NetAddr, usize)>)
    requires
        pos <= s@.len(),
    ensures
        match r {
            Some((addr, end)) => read_socket_v4(s@, pos as int) == Some((addr@, end as int)),
            None => read_socket_v4(s@, pos as int) is None,
        },
{
    match scan_ipv4(s, pos) {
        Some((ip, p1)) => match scan_port(s, p1) {
            Some((port, p2)) => Some((NetAddr::V4 { ip, port }, p2)),
            None => None,
        },
        None => None,
    }
}

fn scan_socket_v6(s: &[u8], pos: usize) -> (r: Option<(NetAddr, usize)>)
    requires
        pos <= s@.len(),
    ensures
        match r {
            Some((addr, end)) => read_socket_v6(s@, pos as int) == Some((addr@, end as int)),
            None => read_socket_v6(s@, pos as int) is None,
        },
{
    if !(pos < s.len() && s[pos] == OPEN) {
        return None;
    }
    let (ip, p1) = match scan_ipv6(s, pos + 1) {
        Some(found) => found,
        None => {
            return None;
        },
    };
    let (scope_id, p2) = match scan_scope(s, p1) {
        Some(found) => found,
        None => (0, p1),
    };
    if !(p2 < s.len() && s[p2] == CLOSE) {
        return None;
    }
    match scan_port(s, p2 + 1) {
        Some((port, p3)) => Some((NetAddr::V6 { ip, port, flowinfo: 0, scope_id }, p3)),
        None => None,
    }
}

/// Parses a whole text as a network address: `a.b.c.d:port`, or
/// `[groups]:port` with an optional `%scope` before the closing bracket.
pub fn parse_socket_addr(s: &[u8]) -> (r: Option<NetAddr>)
    ensures
        match r {
            Some(addr) => socket_addr_of_text(s@) == Some(addr@),
            None => socket_addr_of_text(s@) is None,
        },
{
    match scan_socket_v4(s, 0) {
        Some((addr, end)) => if end == s.len() {
            Some(addr)
        } else {
            None
        },
        None => match scan_socket_v6(s, 0) {
            Some((addr, end)) => if end == s.len() {
                Some(addr)
            } else {
                None
            },
            None => None,
        },
    }
}

fn push_ipv4(out: &mut Vec<u8>, ip: &[u8; 4])
    ensures
        final(out)@ == old(out)@ + text_ipv4(ip@),
{
    push_number(out, ip[0] as u32, false);
    out.push(DOT);
    push_number(out, ip[1] as u32, false);
    out.push(DOT);
    push_number(out, ip[2] as u32, false);
    out.push(DOT);
    push_number(out, ip[3] as u32, false);
    assert(out@ =~= old(out)@ + text_ipv4(ip@));
}

/// Appends groups `from` up to `to`: with colons between them where `first`
/// is set, each after a colon where it is not.
fn push_groups(out: &mut Vec<u8>, ip: &[u16; 8], from: usize, to: usize, first: bool)
    requires
        from <= to <= 8,
    ensures
        final(out)@ == old(out)@ + if first {
            join_groups(ip@.subrange(from as int, to as int))
        } else {
            sep_groups(ip@.subrange(from as int, to as int))
        },
{
    let ghost groups = ip@.subrange(from as int, to as int);
    let mut k: usize = from;
    if first {
        if from == to {
            assert(out@ + Seq::<u8>::empty() =~= out@);
            return ;
        }
        push_number(out, ip[from] as u32, true);
        k = from + 1;
        assert(ip@.subrange(k as int, to as int) =~= groups.skip(1));
    }
    let ghost goal = old(out)@ + if first {
        join_groups(groups)
    } else {
        sep_groups(groups)
    };
    assert(goal =~= out@ + sep_groups(ip@.subrange(k as int, to as int)));
    while k < to
        invariant
            from <= k <= to <= 8,
            goal == out@ + sep_groups(ip@.subrange(k as int, to as int)),
        decreases to - k,
    {
        let ghost before = out@;
        let ghost rest = ip@.subrange(k as int, to as int);
        out.push(COLON);
        push_number(out, ip[k] as u32, true);
        proof {
            assert(rest.skip(1) =~= ip@.subrange(k + 1, to as int));
            assert(rest[0] == ip@[k as int]);
            assert(out@ + sep_groups(rest.skip(1)) =~= before + (seq![COLON] + render(
                rest[0] as nat,
                true,
            ) + sep_groups(rest.skip(1))));
        }
        k = k + 1;
    }
    assert(out@ + Seq::<u8>::empty() =~= out@);
}

fn find_zero_run(ip: &[u16; 8]) -> (r: (usize, usize))
    ensures
        (r.0 as int, r.1 as nat) == longest_zero_run(ip@, 0),
        r.0 + r.1 <= 8,
{
    let mut i: usize = 8;
    let mut here: usize = 0;
    let mut best: (usize, usize) = (0, 0);
    while i > 0
        invariant
            i <= 8,
            here == zero_run_at(ip@, i as int),
            (best.0 as int, best.1 as nat) == longest_zero_run(ip@, i as int),
            i + here <= 8,
            best.0 + best.1 <= 8,
        decreases i,
    {
        i = i - 1;
        if ip[i] == 0 {
            here = here + 1;
        } else {
            here = 0;
        }
        if here > 0 && here >= best.1 {
            best = (i, here);
        }
    }
    best
}

fn push_ipv6(out: &mut Vec<u8>, ip: &[u16; 8])
    ensures
        final(out)@ == old(out)@ + text_ipv6(ip@),
{
    if ip[0] == 0 && ip[1] == 0 && ip[2] == 0 && ip[3] == 0 && ip[4] == 0 && ip[5] == 0xffff {
        out.push(COLON);
        out.push(COLON);
        out.push(0x66);
        out.push(0x66);
        out.push(0x66);
        out.push(0x66);
        out.push(COLON);
        let octets: [u8; 4] = [
            (ip[6] / 256) as u8,
            (ip[6] % 256) as u8,
            (ip[7] / 256) as u8,
            (ip[7] % 256) as u8,
        ];
        assert(octets@ =~= octets_of_groups(ip@[6], ip@[7]));
        push_ipv4(out, &octets);
        assert(out@ =~= old(out)@ + text_ipv6(ip@));
    } else {
        let (start, len) = find_zero_run(ip);
        if len > 1 {
            push_groups(out, ip, 0, start, true);
            out.push(COLON);
            out.push(COLON);
            push_groups(out, ip, start + len, 8, true);
            assert(ip@.subrange(0, start as int) =~= ip@.take(start as int));
            assert(ip@.subrange(start + len, 8) =~= ip@.skip(start + len));
            assert(out@ =~= old(out)@ + text_ipv6(ip@));
        } else {
            push_groups(out, ip, 0, 8, true);
            assert(ip@.subrange(0, 8) =~= ip@);
        }
    }
}

/// Writes a network address as text.
pub fn format_socket_addr(addr: &NetAddr) -> (text: Vec<u8>)
    ensures
        text@ == text_socket_addr(addr@),
{
    let mut text: Vec<u8> = Vec::new();
    match addr {
        NetAddr::V4 { ip, port } => {
            push_ipv4(&mut text, ip);
            text.push(COLON);
            push_number(&mut text, *port as u32, false);
            assert(text@ =~= text_socket_addr(addr@));
        },
        NetAddr::V6 { ip, port, scope_id, .. } => {
            text.push(OPEN);
            push_ipv6(&mut text, ip);
            if *scope_id != 0 {
                text.push(PERCENT);
                push_number(&mut text, *scope_id, false);
            }
            text.push(CLOSE);
            text.push(COLON);
            push_number(&mut text, *port as u32, false);
            assert(text@ =~= text_socket_addr(addr@));
        },
    }
    text
}

} // verus!
