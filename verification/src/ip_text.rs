//! Why the text of a network address is read back as that address.

use crate::digits::{
    digit_of, digits_end, has_byte, lemma_digits_end_bounds, lemma_matches_split,
    lemma_read_rendered, lemma_render, matches_at, render,
};
use crate::ip::{
    groups_of_octets, is_ipv4_mapped, join_groups, longest_zero_run, mapped_prefix,
    octets_of_groups, read_embedded_ipv4, read_group, read_groups, read_ipv4, read_ipv6,
    read_port, read_scope, read_socket_v4, read_socket_v6, sep_groups, socket_addr_of_text,
    text_ipv4, text_ipv6, text_scope, text_socket_addr, zero_run_at, NetAddrView, CLOSE, COLON,
    DOT, OPEN, PERCENT,
};
use vstd::prelude::*;

verus! {

/// Whether `s` holds no dot from `pos` on.
pub open spec fn dot_free(s: Seq<u8>, pos: int) -> bool {
    forall|i: int| pos <= i < s.len() ==> #[trigger] s[i] != DOT
}

/// Groups as `read_groups` meets them: the first one bare, the others each
/// after a colon.
pub open spec fn groups_text(groups: Seq<u16>, first: bool) -> Seq<u8> {
    if first {
        join_groups(groups)
    } else {
        sep_groups(groups)
    }
}

/// No IPv4 address is read where no dot follows.
pub(crate) proof fn lemma_no_ipv4_without_dot(s: Seq<u8>, pos: int)
    requires
        0 <= pos <= s.len(),
        dot_free(s, pos),
    ensures
        read_ipv4(s, pos) is None,
{
    lemma_digits_end_bounds(s, pos, false);
    let p1 = digits_end(s, pos, false);
    if p1 < s.len() {
        assert(s[p1] != DOT);
    }
}

/// The text of an IPv4 address is read back as that address, unless a digit
/// follows it.
pub proof fn lemma_read_ipv4_text(s: Seq<u8>, pos: int, ip: Seq<u8>)
    requires
        ip.len() == 4,
        matches_at(s, pos, text_ipv4(ip)),
        pos + text_ipv4(ip).len() < s.len() ==> digit_of(s[pos + text_ipv4(ip).len()], false)
            is None,
    ensures
        read_ipv4(s, pos) == Some((ip, pos + text_ipv4(ip).len())),
{
    let t0 = render(ip[0] as nat, false);
    let t1 = render(ip[1] as nat, false);
    let t2 = render(ip[2] as nat, false);
    let t3 = render(ip[3] as nat, false);
    let dot = seq![DOT];
    assert(dot[0] == DOT);
    lemma_matches_split(s, pos, t0 + dot + t1 + dot + t2 + dot, t3);
    lemma_matches_split(s, pos, t0 + dot + t1 + dot + t2, dot);
    lemma_matches_split(s, pos, t0 + dot + t1 + dot, t2);
    lemma_matches_split(s, pos, t0 + dot + t1, dot);
    lemma_matches_split(s, pos, t0 + dot, t1);
    lemma_matches_split(s, pos, t0, dot);
    lemma_render(ip[0] as nat, false);
    lemma_render(ip[1] as nat, false);
    lemma_render(ip[2] as nat, false);
    lemma_render(ip[3] as nat, false);
    let p1 = pos + t0.len();
    let p2 = p1 + 1 + t1.len();
    let p3 = p2 + 1 + t2.len();
    assert(s[p1] == DOT);
    assert(s[p2] == DOT);
    assert(s[p3] == DOT);
    lemma_read_rendered(s, pos, ip[0] as nat, false, Some(3nat), false, 255);
    lemma_read_rendered(s, p1 + 1, ip[1] as nat, false, Some(3nat), false, 255);
    lemma_read_rendered(s, p2 + 1, ip[2] as nat, false, Some(3nat), false, 255);
    lemma_read_rendered(s, p3 + 1, ip[3] as nat, false, Some(3nat), false, 255);
    assert(seq![ip[0], ip[1], ip[2], ip[3]] =~= ip);
}

/// Groups written out are read back, all of them and no more, where nothing
/// that follows them could be taken for another group.
pub(crate) proof fn lemma_read_groups_text(s: Seq<u8>, pos: int, groups: Seq<u16>, i: nat, limit: nat)
    requires
        i + groups.len() <= limit,
        matches_at(s, pos, groups_text(groups, i == 0)),
        dot_free(s, pos),
        ({
            let end = pos + groups_text(groups, i == 0).len();
            &&& end < s.len() ==> digit_of(s[end], true) is None
            &&& 0 < i + groups.len() < limit ==> !(has_byte(s, end, COLON) && end + 1 < s.len()
                && digit_of(s[end + 1], true) is Some)
        }),
    ensures
        read_groups(s, pos, i, limit) == (
            groups,
            pos + groups_text(groups, i == 0).len(),
            false,
        ),
    decreases groups.len(),
{
    let first = i == 0;
    let end = pos + groups_text(groups, first).len();
    if i >= limit {
        assert(groups =~= Seq::empty());
    } else {
        if i + 1 < limit {
            if first {
                lemma_no_ipv4_without_dot(s, pos);
            } else if has_byte(s, pos, COLON) {
                lemma_no_ipv4_without_dot(s, pos + 1);
            }
        }
        if groups.len() == 0 {
            assert(groups =~= Seq::empty());
            assert(end == pos);
            if first {
                assert(digits_end(s, pos, true) == pos);
            } else if has_byte(s, pos, COLON) {
                assert(digits_end(s, pos + 1, true) == pos + 1);
            }
        } else {
            let g = groups[0];
            let num = render(g as nat, true);
            let rest = groups.skip(1);
            let colon = seq![COLON];
            assert(colon[0] == COLON);
            let start = if first {
                pos
            } else {
                pos + 1
            };
            if first {
                lemma_matches_split(s, pos, num, sep_groups(rest));
            } else {
                lemma_matches_split(s, pos, colon + num, sep_groups(rest));
                lemma_matches_split(s, pos, colon, num);
                assert(s[pos] == COLON);
            }
            let next = start + num.len();
            if rest.len() > 0 {
                assert(sep_groups(rest)[0] == COLON);
                assert(s[next] == COLON);
            }
            lemma_render(g as nat, true);
            lemma_read_rendered(s, start, g as nat, true, Some(4nat), true, 0xffff);
            lemma_read_groups_text(s, next, rest, i + 1, limit);
            assert(seq![g] + rest =~= groups);
        }
    }
}

/// A row of zero groups stays within the address.
pub(crate) proof fn lemma_zero_run_at(ip: Seq<u16>, i: int)
    requires
        ip.len() == 8,
        0 <= i <= 8,
    ensures
        i + zero_run_at(ip, i) <= 8,
        forall|j: int| i <= j < i + zero_run_at(ip, i) ==> #[trigger] ip[j] == 0,
    decreases 8 - i,
{
    if i < 8 && ip[i] == 0 {
        lemma_zero_run_at(ip, i + 1);
    }
}

/// The longest row of zero groups is a row of zero groups.
pub(crate) proof fn lemma_longest_zero_run(ip: Seq<u16>, i: int)
    requires
        ip.len() == 8,
        0 <= i <= 8,
    ensures
        ({
            let (start, len) = longest_zero_run(ip, i);
            len > 0 ==> i <= start && start + len <= 8 && forall|j: int|
                start <= j < start + len ==> #[trigger] ip[j] == 0
        }),
    decreases 8 - i,
{
    if i < 8 {
        lemma_zero_run_at(ip, i);
        lemma_longest_zero_run(ip, i + 1);
    }
}

/// Whether every byte of a text lies between `low` and `high`.
pub open spec fn bytes_within(text: Seq<u8>, low: u8, high: u8) -> bool {
    forall|i: int| 0 <= i < text.len() ==> low <= #[trigger] text[i] <= high
}

/// Two texts within the same bounds are within them when joined.
pub(crate) proof fn lemma_within_concat(a: Seq<u8>, b: Seq<u8>, low: u8, high: u8)
    requires
        bytes_within(a, low, high),
        bytes_within(b, low, high),
    ensures
        bytes_within(a + b, low, high),
{
    let ab = a + b;
    assert forall|i: int| 0 <= i < ab.len() implies low <= #[trigger] ab[i] <= high by {
        if i < a.len() {
            assert(ab[i] == a[i]);
        } else {
            assert(ab[i] == b[i - a.len()]);
        }
    }
}

/// A number written out holds digits and nothing else.
pub(crate) proof fn lemma_render_within(n: nat, hex: bool)
    ensures
        bytes_within(render(n, hex), 0x30, 0x66),
{
    lemma_render(n, hex);
}

/// Groups in hexadecimal hold digits and colons only.
pub(crate) proof fn lemma_groups_within(groups: Seq<u16>)
    ensures
        bytes_within(sep_groups(groups), 0x30, 0x66),
        bytes_within(join_groups(groups), 0x30, 0x66),
    decreases groups.len(),
{
    if groups.len() > 0 {
        let colon = seq![COLON];
        let num = render(groups[0] as nat, true);
        let rest = sep_groups(groups.skip(1));
        lemma_render_within(groups[0] as nat, true);
        lemma_groups_within(groups.skip(1));
        assert(bytes_within(colon, 0x30, 0x66));
        lemma_within_concat(colon, num, 0x30, 0x66);
        lemma_within_concat(colon + num, rest, 0x30, 0x66);
        lemma_within_concat(num, rest, 0x30, 0x66);
    }
}

/// The text of an IPv4 address holds digits and dots only.
pub(crate) proof fn lemma_text_ipv4_within(ip: Seq<u8>)
    requires
        ip.len() == 4,
    ensures
        bytes_within(text_ipv4(ip), 0x2e, 0x66),
        text_ipv4(ip).len() > 0,
        0x30 <= text_ipv4(ip)[0],
{
    let t0 = render(ip[0] as nat, false);
    let t1 = render(ip[1] as nat, false);
    let t2 = render(ip[2] as nat, false);
    let t3 = render(ip[3] as nat, false);
    let dot = seq![DOT];
    lemma_render(ip[0] as nat, false);
    lemma_render(ip[1] as nat, false);
    lemma_render(ip[2] as nat, false);
    lemma_render(ip[3] as nat, false);
    assert(bytes_within(dot, 0x2e, 0x66));
    assert(bytes_within(t0, 0x2e, 0x66));
    assert(bytes_within(t1, 0x2e, 0x66));
    assert(bytes_within(t2, 0x2e, 0x66));
    assert(bytes_within(t3, 0x2e, 0x66));
    lemma_within_concat(t0, dot, 0x2e, 0x66);
    lemma_within_concat(t0 + dot, t1, 0x2e, 0x66);
    lemma_within_concat(t0 + dot + t1, dot, 0x2e, 0x66);
    lemma_within_concat(t0 + dot + t1 + dot, t2, 0x2e, 0x66);
    lemma_within_concat(t0 + dot + t1 + dot + t2, dot, 0x2e, 0x66);
    lemma_within_concat(t0 + dot + t1 + dot + t2 + dot, t3, 0x2e, 0x66);
    assert(text_ipv4(ip)[0] == t0[0]);
}

/// The text of an IPv6 address holds digits, colons and dots only, and no
/// dot unless the address is a mapped IPv4 address.
pub(crate) proof fn lemma_text_ipv6_within(ip: Seq<u16>)
    requires
        ip.len() == 8,
    ensures
        bytes_within(text_ipv6(ip), 0x2e, 0x66),
        !is_ipv4_mapped(ip) ==> bytes_within(text_ipv6(ip), 0x30, 0x66),
{
    if is_ipv4_mapped(ip) {
        lemma_text_ipv4_within(octets_of_groups(ip[6], ip[7]));
        assert(bytes_within(mapped_prefix(), 0x2e, 0x66));
        lemma_within_concat(
            mapped_prefix(),
            text_ipv4(octets_of_groups(ip[6], ip[7])),
            0x2e,
            0x66,
        );
    } else {
        let (start, len) = longest_zero_run(ip, 0);
        let gap = seq![COLON, COLON];
        lemma_groups_within(ip.take(start));
        lemma_groups_within(ip.skip(start + len));
        lemma_groups_within(ip);
        assert(bytes_within(gap, 0x30, 0x66));
        lemma_within_concat(join_groups(ip.take(start)), gap, 0x30, 0x66);
        lemma_within_concat(
            join_groups(ip.take(start)) + gap,
            join_groups(ip.skip(start + len)),
            0x30,
            0x66,
        );
    }
}

/// The text of a mapped IPv4 address is read back as that address.
#[verifier::rlimit(60)]
#[verifier::spinoff_prover]
proof fn lemma_read_ipv6_mapped(s: Seq<u8>, pos: int, ip: Seq<u16>)
    requires
        ip.len() == 8,
        is_ipv4_mapped(ip),
        matches_at(s, pos, text_ipv6(ip)),
        pos + text_ipv6(ip).len() < s.len(),
        s[pos + text_ipv6(ip).len()] == CLOSE || s[pos + text_ipv6(ip).len()] == PERCENT,
    ensures
        read_ipv6(s, pos) == Some((ip, pos + text_ipv6(ip).len())),
{
    let end = pos + text_ipv6(ip).len();
    let octets = octets_of_groups(ip[6], ip[7]);
    let prefix = mapped_prefix();
    lemma_matches_split(s, pos, prefix, text_ipv4(octets));
    assert(s[pos] == prefix[0] && s[pos + 1] == prefix[1] && s[pos + 2] == prefix[2] && s[pos + 3]
        == prefix[3] && s[pos + 4] == prefix[4] && s[pos + 5] == prefix[5] && s[pos + 6]
        == prefix[6]);
    // Nothing stands before the `::`.
    assert(read_groups(s, pos, 0, 8) == (Seq::<u16>::empty(), pos, false)) by {
        assert(digits_end(s, pos, false) == pos);
        assert(digits_end(s, pos, true) == pos);
    }
    // After it stand `ffff` and the dotted address.
    let ones = render(0xffff, true);
    assert(ones =~= seq![0x66u8, 0x66u8, 0x66u8, 0x66u8]) by {
        reveal_with_fuel(render, 5);
    }
    assert(read_group(s, pos + 2, true) == Some((0xffffnat, pos + 6))) by {
        assert(matches_at(s, pos + 2, ones));
        lemma_read_rendered(s, pos + 2, 0xffff, true, Some(4nat), true, 0xffff);
    }
    assert(read_embedded_ipv4(s, pos + 2, true) is None) by {
        assert(digits_end(s, pos + 2, false) == pos + 2);
    }
    assert(read_embedded_ipv4(s, pos + 6, false) == Some((octets, end))) by {
        lemma_read_ipv4_text(s, pos + 7, octets);
    }
    assert(read_groups(s, pos + 6, 1, 7) == (groups_of_octets(octets), end, true));
    let tail = seq![0xffffu16] + groups_of_octets(octets);
    assert(read_groups(s, pos + 2, 0, 7) == (tail, end, true));
    assert(Seq::<u16>::empty() + Seq::new(5, |i: int| 0u16) + tail =~= ip);
}

/// The text of an address with a `::` is read back as that address.
#[verifier::rlimit(60)]
#[verifier::spinoff_prover]
proof fn lemma_read_ipv6_short(s: Seq<u8>, pos: int, ip: Seq<u16>)
    requires
        ip.len() == 8,
        !is_ipv4_mapped(ip),
        longest_zero_run(ip, 0).1 > 1,
        matches_at(s, pos, text_ipv6(ip)),
        pos + text_ipv6(ip).len() < s.len(),
        s[pos + text_ipv6(ip).len()] == CLOSE || s[pos + text_ipv6(ip).len()] == PERCENT,
        dot_free(s, pos),
    ensures
        read_ipv6(s, pos) == Some((ip, pos + text_ipv6(ip).len())),
{
    let (start, len) = longest_zero_run(ip, 0);
    lemma_longest_zero_run(ip, 0);
    let head = ip.take(start);
    let tail = ip.skip(start + len);
    let gap = seq![COLON, COLON];
    assert(gap[0] == COLON && gap[1] == COLON);
    lemma_matches_split(s, pos, join_groups(head) + gap, join_groups(tail));
    lemma_matches_split(s, pos, join_groups(head), gap);
    let p1 = pos + join_groups(head).len();
    assert(s[p1] == COLON && s[p1 + 1] == COLON);
    let end = p1 + 2 + join_groups(tail).len();
    assert(read_groups(s, pos, 0, 8) == (head, p1, false)) by {
        lemma_read_groups_text(s, pos, head, 0, 8);
    }
    assert(read_groups(s, p1 + 2, 0, (7 - start) as nat) == (tail, end, false)) by {
        lemma_read_groups_text(s, p1 + 2, tail, 0, (7 - start) as nat);
    }
    assert(head + Seq::new(len, |i: int| 0u16) + tail =~= ip);
}

/// The text of an IPv6 address is read back as that address, before a
/// closing bracket or a percent sign.
pub proof fn lemma_read_ipv6_text(s: Seq<u8>, pos: int, ip: Seq<u16>)
    requires
        ip.len() == 8,
        matches_at(s, pos, text_ipv6(ip)),
        pos + text_ipv6(ip).len() < s.len(),
        s[pos + text_ipv6(ip).len()] == CLOSE || s[pos + text_ipv6(ip).len()] == PERCENT,
        !is_ipv4_mapped(ip) ==> dot_free(s, pos),
    ensures
        read_ipv6(s, pos) == Some((ip, pos + text_ipv6(ip).len())),
{
    if is_ipv4_mapped(ip) {
        lemma_read_ipv6_mapped(s, pos, ip);
    } else if longest_zero_run(ip, 0).1 > 1 {
        lemma_read_ipv6_short(s, pos, ip);
    } else {
        lemma_read_groups_text(s, pos, ip, 0, 8);
    }
}

/// How the text of an IPv6 address with a port is laid out: the positions
/// after the address and after the scope identifier.
pub open spec fn v6_layout(ip: Seq<u16>, scope_id: u32) -> (int, int) {
    (
        1 + text_ipv6(ip).len() as int,
        1 + text_ipv6(ip).len() as int + text_scope(scope_id).len() as int,
    )
}

/// What stands where in the text of an IPv6 address with a port.
proof fn lemma_socket_v6_layout(ip: Seq<u16>, port: u16, flowinfo: u32, scope_id: u32)
    ensures
        ({
            let s = text_socket_addr(NetAddrView::V6 { ip, port, flowinfo, scope_id });
            let (p1, p2) = v6_layout(ip, scope_id);
            &&& s.len() == p2 + 2 + render(port as nat, false).len()
            &&& s[0] == OPEN
            &&& matches_at(s, 1, text_ipv6(ip))
            &&& matches_at(s, p1, text_scope(scope_id))
            &&& s[p2] == CLOSE
            &&& s[p2 + 1] == COLON
            &&& matches_at(s, p2 + 2, render(port as nat, false))
            &&& scope_id == 0 ==> p1 == p2
            &&& scope_id != 0 ==> s[p1] == PERCENT && matches_at(
                s,
                p1 + 1,
                render(scope_id as nat, false),
            ) && p2 == p1 + 1 + render(scope_id as nat, false).len()
        }),
{
    let s = text_socket_addr(NetAddrView::V6 { ip, port, flowinfo, scope_id });
    let opening = seq![OPEN];
    let host = text_ipv6(ip);
    let scope = text_scope(scope_id);
    let closing = seq![CLOSE, COLON];
    let digits = render(port as nat, false);
    let (p1, p2) = v6_layout(ip, scope_id);
    assert(matches_at(s, 0, s));
    assert(opening[0] == OPEN);
    assert(closing[0] == CLOSE && closing[1] == COLON);
    lemma_matches_split(s, 0, opening + host + scope + closing, digits);
    lemma_matches_split(s, 0, opening + host + scope, closing);
    lemma_matches_split(s, 0, opening + host, scope);
    lemma_matches_split(s, 0, opening, host);
    assert(s[0] == OPEN);
    assert(s[p2] == CLOSE && s[p2 + 1] == COLON);
    if scope_id != 0 {
        let percent = seq![PERCENT];
        assert(percent[0] == PERCENT);
        lemma_matches_split(s, p1, percent, render(scope_id as nat, false));
        assert(s[p1] == PERCENT);
    }
}

/// The text of an IPv6 address with a port is printable, and holds a dot only
/// within a mapped IPv4 address.
proof fn lemma_socket_v6_bytes(ip: Seq<u16>, port: u16, flowinfo: u32, scope_id: u32)
    requires
        ip.len() == 8,
    ensures
        ({
            let s = text_socket_addr(NetAddrView::V6 { ip, port, flowinfo, scope_id });
            &&& bytes_within(s, 0x20, 0x7e)
            &&& !is_ipv4_mapped(ip) ==> dot_free(s, 1)
        }),
{
    let s = text_socket_addr(NetAddrView::V6 { ip, port, flowinfo, scope_id });
    let host = text_ipv6(ip);
    let scope = render(scope_id as nat, false);
    let digits = render(port as nat, false);
    let (p1, p2) = v6_layout(ip, scope_id);
    lemma_socket_v6_layout(ip, port, flowinfo, scope_id);
    lemma_text_ipv6_within(ip);
    lemma_render_within(scope_id as nat, false);
    lemma_render_within(port as nat, false);
    assert forall|i: int| 0 <= i < s.len() implies 0x20 <= #[trigger] s[i] <= 0x7e && (i >= 1
        && !is_ipv4_mapped(ip) ==> s[i] != DOT) by {
        if i < 1 {
        } else if i < p1 {
            assert(s[1 + (i - 1)] == host[i - 1]);
        } else if i < p2 {
            if i > p1 {
                assert(s[p1 + 1 + (i - p1 - 1)] == scope[i - p1 - 1]);
            }
        } else if i < p2 + 2 {
        } else {
            assert(s[p2 + 2 + (i - p2 - 2)] == digits[i - p2 - 2]);
        }
    }
}

/// An IPv4 address with a port, written as text, is read back.
proof fn lemma_socket_v4_round_trip(ip: Seq<u8>, port: u16)
    requires
        ip.len() == 4,
    ensures
        ({
            let addr = NetAddrView::V4 { ip, port };
            let s = text_socket_addr(addr);
            &&& read_socket_v4(s, 0) == Some((addr, s.len() as int))
            &&& s.len() > 0
            &&& 0x30 <= s[0]
            &&& s.contains(COLON)
            &&& bytes_within(s, 0x20, 0x7e)
        }),
{
    let addr = NetAddrView::V4 { ip, port };
    let s = text_socket_addr(addr);
    let colon = seq![COLON];
    let host = text_ipv4(ip);
    let digits = render(port as nat, false);
    assert(matches_at(s, 0, s));
    assert(colon[0] == COLON);
    lemma_matches_split(s, 0, host + colon, digits);
    lemma_matches_split(s, 0, host, colon);
    assert(s[host.len() as int] == COLON);
    lemma_read_ipv4_text(s, 0, ip);
    lemma_read_rendered(s, host.len() as int + 1, port as nat, false, None, true, 0xffff);
    lemma_text_ipv4_within(ip);
    lemma_render_within(port as nat, false);
    assert(s[0] == host[0]);
    assert(bytes_within(colon, 0x2e, 0x66));
    lemma_within_concat(host, colon, 0x2e, 0x66);
    assert(bytes_within(digits, 0x2e, 0x66));
    lemma_within_concat(host + colon, digits, 0x2e, 0x66);
}

/// An IPv6 address with a port, written as text, is read back, but for the
/// flow information.
proof fn lemma_socket_v6_round_trip(ip: Seq<u16>, port: u16, scope_id: u32)
    requires
        ip.len() == 8,
    ensures
        ({
            let addr = NetAddrView::V6 { ip, port, flowinfo: 0, scope_id };
            let s = text_socket_addr(addr);
            &&& read_socket_v4(s, 0) is None
            &&& read_socket_v6(s, 0) == Some((addr, s.len() as int))
        }),
{
    let addr = NetAddrView::V6 { ip, port, flowinfo: 0, scope_id };
    let s = text_socket_addr(addr);
    let (p1, p2) = v6_layout(ip, scope_id);
    lemma_socket_v6_layout(ip, port, 0, scope_id);
    lemma_socket_v6_bytes(ip, port, 0, scope_id);
    assert(read_socket_v4(s, 0) is None) by {
        assert(digits_end(s, 0, false) == 0);
    }
    assert(read_ipv6(s, 1) == Some((ip, p1))) by {
        lemma_read_ipv6_text(s, 1, ip);
    }
    assert(read_scope(s, p1) == if scope_id == 0 {
        None
    } else {
        Some((scope_id as nat, p2))
    }) by {
        if scope_id != 0 {
            lemma_read_rendered(s, p1 + 1, scope_id as nat, false, None, true, 0xffff_ffff);
        }
    }
    assert(read_port(s, p2 + 1) == Some((port as nat, s.len() as int))) by {
        lemma_read_rendered(s, p2 + 2, port as nat, false, None, true, 0xffff);
    }
}

/// A network address written as text is read back as the same address. The
/// flow information of an IPv6 address is not written, so it must be zero.
/// The text is printable, does not begin with a zero byte, and holds a colon.
pub proof fn lemma_socket_addr_round_trip(addr: NetAddrView)
    requires
        addr.wf(),
        addr matches NetAddrView::V6 { flowinfo, .. } ==> flowinfo == 0,
    ensures
        socket_addr_of_text(text_socket_addr(addr)) == Some(addr),
        text_socket_addr(addr).len() > 0,
        text_socket_addr(addr)[0] != 0,
        text_socket_addr(addr).contains(COLON),
        bytes_within(text_socket_addr(addr), 0x20, 0x7e),
{
    let s = text_socket_addr(addr);
    match addr {
        NetAddrView::V4 { ip, port } => {
            lemma_socket_v4_round_trip(ip, port);
        },
        NetAddrView::V6 { ip, port, flowinfo, scope_id } => {
            lemma_socket_v6_round_trip(ip, port, scope_id);
            lemma_socket_v6_layout(ip, port, 0, scope_id);
            lemma_socket_v6_bytes(ip, port, 0, scope_id);
            let (p1, p2) = v6_layout(ip, scope_id);
            assert(s[p2 + 1] == COLON);
        },
    }
}

} // verus!
