use cache_transport::escape::{ascii_escape, ascii_unescape_default};
use cache_transport::ip::{format_socket_addr, parse_socket_addr, NetAddr};
use cache_transport::net::SocketAddr;

fn v4(a: u8, b: u8, c: u8, d: u8, port: u16) -> NetAddr {
    NetAddr::V4 { ip: [a, b, c, d], port }
}

fn v6(ip: [u16; 8], port: u16, scope_id: u32) -> NetAddr {
    NetAddr::V6 { ip, port, flowinfo: 0, scope_id }
}

fn unix(path: &str) -> SocketAddr {
    SocketAddr::Unix(path.as_bytes().to_vec())
}

fn text_of(addr: &NetAddr) -> String {
    String::from_utf8(format_socket_addr(addr)).unwrap()
}

#[test]
fn parse_ipv4_with_port() {
    assert_eq!(SocketAddr::parse("127.0.0.1:8080"), SocketAddr::Net(v4(127, 0, 0, 1, 8080)));
    assert_eq!(SocketAddr::parse("0.0.0.0:0"), SocketAddr::Net(v4(0, 0, 0, 0, 0)));
    assert_eq!(
        SocketAddr::parse("255.255.255.255:65535"),
        SocketAddr::Net(v4(255, 255, 255, 255, 65535))
    );
}

#[test]
fn parse_ipv6_with_port() {
    assert_eq!(SocketAddr::parse("[::1]:80"), SocketAddr::Net(v6([0, 0, 0, 0, 0, 0, 0, 1], 80, 0)));
    assert_eq!(SocketAddr::parse("[::]:0"), SocketAddr::Net(v6([0; 8], 0, 0)));
    assert_eq!(
        SocketAddr::parse("[2001:db8::8a2e:370:7334]:443"),
        SocketAddr::Net(v6([0x2001, 0xdb8, 0, 0, 0, 0x8a2e, 0x370, 0x7334], 443, 0))
    );
    assert_eq!(
        SocketAddr::parse("[1:2:3:4:5:6:7:8]:9"),
        SocketAddr::Net(v6([1, 2, 3, 4, 5, 6, 7, 8], 9, 0))
    );
    assert_eq!(
        SocketAddr::parse("[FE80::AbCd%7]:4226"),
        SocketAddr::Net(v6([0xfe80, 0, 0, 0, 0, 0, 0, 0xabcd], 4226, 7))
    );
}

#[test]
fn parse_ipv6_with_embedded_ipv4() {
    assert_eq!(
        SocketAddr::parse("[::ffff:192.0.2.33]:1"),
        SocketAddr::Net(v6([0, 0, 0, 0, 0, 0xffff, 0xc000, 0x0221], 1, 0))
    );
    assert_eq!(
        SocketAddr::parse("[1:2:3:4:5:6:1.2.3.4]:5"),
        SocketAddr::Net(v6([1, 2, 3, 4, 5, 6, 0x0102, 0x0304], 5, 0))
    );
    assert_eq!(
        SocketAddr::parse("[64:ff9b::10.0.0.1]:53"),
        SocketAddr::Net(v6([0x64, 0xff9b, 0, 0, 0, 0, 0x0a00, 0x0001], 53, 0))
    );
}

#[test]
fn parse_never_fails_and_falls_back_to_a_path() {
    assert_eq!(SocketAddr::parse(""), unix(""));
    assert_eq!(SocketAddr::parse("/tmp/cache.sock"), unix("/tmp/cache.sock"));
    assert_eq!(SocketAddr::parse("C:\\cache\\sock"), unix("C:\\cache\\sock"));
    assert_eq!(SocketAddr::parse("not:an:address"), unix("not:an:address"));
    assert_eq!(SocketAddr::parse(":"), unix(":"));
    assert_eq!(SocketAddr::parse("127.0.0.1"), unix("127.0.0.1"));
    assert_eq!(SocketAddr::parse("caf\u{e9}:1"), unix("caf\u{e9}:1"));
}

#[test]
fn malformed_network_addresses_are_paths() {
    for text in [
        "127.0.0.1:",
        "127.0.0.1:65536",
        "127.0.0.1:80 ",
        " 127.0.0.1:80",
        "256.0.0.1:80",
        "01.2.3.4:80",
        "1.2.3:80",
        "1.2.3.4.5:80",
        "1.2.3.4:-1",
        "1.2.3.4:8o",
        "[::1]",
        "[::1]:",
        "::1:80",
        "[1:2:3:4:5:6:7]:80",
        "[1:2:3:4:5:6:7:8:9]:80",
        "[1::2::3]:80",
        "[12345::]:80",
        "[::1%]:80",
        "[::1%4294967296]:80",
        "[1.2.3.4::]:80",
        "[::g]:80",
        "[:::]:80",
    ] {
        assert_eq!(SocketAddr::parse(text), unix(text), "{}", text);
    }
}

#[test]
fn port_and_scope_may_have_leading_zeros() {
    assert_eq!(SocketAddr::parse("1.2.3.4:00080"), SocketAddr::Net(v4(1, 2, 3, 4, 80)));
    assert_eq!(
        SocketAddr::parse("1.2.3.4:000000000000000000000065535"),
        SocketAddr::Net(v4(1, 2, 3, 4, 65535))
    );
    assert_eq!(
        SocketAddr::parse("[0001:02::003%007]:09"),
        SocketAddr::Net(v6([1, 2, 0, 0, 0, 0, 0, 3], 9, 7))
    );
    assert_eq!(
        SocketAddr::parse("[::1%4294967295]:1"),
        SocketAddr::Net(v6([0, 0, 0, 0, 0, 0, 0, 1], 1, 4294967295))
    );
}

#[test]
fn parse_abstract_name() {
    assert_eq!(SocketAddr::parse("\0cache"), SocketAddr::UnixAbstract(b"cache".to_vec()));
    assert_eq!(
        SocketAddr::parse("\0a\\x00b\\n\\\\c:1"),
        SocketAddr::UnixAbstract(b"a\0b\n\\c:1".to_vec())
    );
    assert_eq!(SocketAddr::parse("\0"), SocketAddr::UnixAbstract(vec![]));
    assert_eq!(SocketAddr::parse("\0\0"), SocketAddr::UnixAbstract(vec![0]));
    assert_eq!(SocketAddr::parse("\x00127.0.0.1:80"), SocketAddr::UnixAbstract(b"127.0.0.1:80".to_vec()));
    assert_eq!(SocketAddr::parse("\0caf\u{e9}"), SocketAddr::UnixAbstract(b"caf\xc3\xa9".to_vec()));
}

#[test]
fn format_network_addresses() {
    assert_eq!(SocketAddr::Net(v4(127, 0, 0, 1, 4226)).to_string(), "127.0.0.1:4226");
    assert_eq!(SocketAddr::Net(v4(0, 10, 200, 255, 0)).to_string(), "0.10.200.255:0");
    assert_eq!(SocketAddr::Net(v6([0; 8], 0, 0)).to_string(), "[::]:0");
    assert_eq!(SocketAddr::Net(v6([0, 0, 0, 0, 0, 0, 0, 1], 80, 0)).to_string(), "[::1]:80");
    assert_eq!(
        SocketAddr::Net(v6([0x2001, 0xdb8, 0, 0, 1, 0, 0, 1], 443, 0)).to_string(),
        "[2001:db8::1:0:0:1]:443"
    );
    assert_eq!(
        SocketAddr::Net(v6([1, 0, 2, 0, 0, 0, 3, 0], 1, 0)).to_string(),
        "[1:0:2::3:0]:1"
    );
    assert_eq!(
        SocketAddr::Net(v6([1, 0, 2, 3, 4, 5, 6, 0], 1, 0)).to_string(),
        "[1:0:2:3:4:5:6:0]:1"
    );
    assert_eq!(
        SocketAddr::Net(v6([0xfe80, 0, 0, 0, 0, 0, 0xabcd, 0], 65535, 12)).to_string(),
        "[fe80::abcd:0%12]:65535"
    );
    assert_eq!(
        SocketAddr::Net(v6([1, 2, 3, 4, 5, 6, 0, 0], 7, 0)).to_string(),
        "[1:2:3:4:5:6::]:7"
    );
    assert_eq!(
        SocketAddr::Net(v6([0, 0, 0, 0, 0, 0xffff, 0xc0a8, 0x0101], 8, 0)).to_string(),
        "[::ffff:192.168.1.1]:8"
    );
    assert_eq!(
        SocketAddr::Net(v6([0, 0, 0, 0, 0, 0, 0xc0a8, 0x0101], 8, 0)).to_string(),
        "[::c0a8:101]:8"
    );
}

#[test]
fn format_paths_and_abstract_names() {
    assert_eq!(unix("/run/cache.sock").to_string(), "/run/cache.sock");
    assert_eq!(unix("").to_string(), "");
    assert_eq!(unix("/tmp/\u{fc}ber").to_string(), "/tmp/\u{fc}ber");
    assert_eq!(SocketAddr::Unix(b"/tmp/\xff".to_vec()).to_string(), "/tmp/\u{fffd}");
    assert_eq!(SocketAddr::UnixAbstract(b"cache".to_vec()).to_string(), "\0cache");
    assert_eq!(SocketAddr::UnixAbstract(vec![]).to_string(), "\0");
    assert_eq!(
        SocketAddr::UnixAbstract(b"\0a\tb\r\n'\"\\\x7f\xff ~".to_vec()).to_string(),
        "\0\\x00a\\tb\\r\\n\\'\\\"\\\\\\x7f\\xff ~"
    );
}

#[test]
fn network_addresses_round_trip() {
    let mut addrs = vec![
        v4(0, 0, 0, 0, 0),
        v4(127, 0, 0, 1, 4226),
        v4(192, 168, 100, 9, 65535),
        v4(255, 255, 255, 255, 1),
    ];
    let groups: [[u16; 8]; 12] = [
        [0; 8],
        [0, 0, 0, 0, 0, 0, 0, 1],
        [1, 0, 0, 0, 0, 0, 0, 0],
        [1, 2, 3, 4, 5, 6, 7, 8],
        [0xffff; 8],
        [0, 1, 0, 0, 2, 0, 0, 0],
        [0, 0, 1, 0, 0, 2, 0, 0],
        [1, 0, 1, 0, 1, 0, 1, 0],
        [0, 0, 0, 0, 0, 0xffff, 0x7f00, 1],
        [0, 0, 0, 0, 0, 0xffff, 0, 0],
        [0, 0, 0, 0, 0, 0, 0x7f00, 1],
        [0x2001, 0xdb8, 0x85a3, 0, 0, 0x8a2e, 0x370, 0x7334],
    ];
    for ip in groups {
        addrs.push(v6(ip, 0, 0));
        addrs.push(v6(ip, 8080, 1));
        addrs.push(v6(ip, 65535, 4294967295));
    }
    for addr in addrs {
        let text = format_socket_addr(&addr);
        assert_eq!(parse_socket_addr(&text), Some(addr), "{}", text_of(&addr));
        let whole = SocketAddr::Net(addr);
        assert_eq!(SocketAddr::parse(&whole.to_string()), whole);
    }
}

#[test]
fn paths_round_trip() {
    for path in ["", "/", "/tmp/cache.sock", "relative/sock", "C:\\pipe\\cache", "a:b", "\u{fc}ber"] {
        let addr = unix(path);
        assert_eq!(SocketAddr::parse(&addr.to_string()), addr);
    }
}

#[test]
fn flow_information_is_not_written() {
    let addr = NetAddr::V6 { ip: [0, 0, 0, 0, 0, 0, 0, 1], port: 80, flowinfo: 9, scope_id: 0 };
    assert_eq!(text_of(&addr), "[::1]:80");
    assert_eq!(parse_socket_addr(b"[::1]:80"), Some(v6([0, 0, 0, 0, 0, 0, 0, 1], 80, 0)));
}

#[test]
fn some_addresses_do_not_come_back() {
    let path = unix("10.0.0.1:80");
    assert_eq!(SocketAddr::parse(&path.to_string()), SocketAddr::Net(v4(10, 0, 0, 1, 80)));
    let marked = unix("\0x");
    assert_eq!(SocketAddr::parse(&marked.to_string()), SocketAddr::UnixAbstract(b"x".to_vec()));
    let not_text = SocketAddr::Unix(b"/tmp/\xff".to_vec());
    assert_eq!(SocketAddr::parse(&not_text.to_string()), unix("/tmp/\u{fffd}"));
}

#[test]
fn abstract_names_round_trip() {
    let all: Vec<u8> = (0..=255u8).collect();
    let names: [&[u8]; 8] = [
        b"",
        b"cache",
        b"\0",
        b"\0cache",
        b"10.0.0.1:80",
        b"/tmp/cache.sock",
        b"\\x41\\\\n\\",
        &all,
    ];
    for name in names {
        let addr = SocketAddr::UnixAbstract(name.to_vec());
        let text = addr.to_string();
        assert!(text.starts_with('\0'), "{:?}", text);
        assert!(text[1..].bytes().all(|b| (0x20..=0x7e).contains(&b)), "{:?}", text);
        assert_eq!(SocketAddr::parse(&text), addr);
    }
}

#[test]
fn escape_exact_values() {
    assert_eq!(ascii_escape(b""), b"".to_vec());
    assert_eq!(ascii_escape(b"plain text!"), b"plain text!".to_vec());
    assert_eq!(ascii_escape(b"\t\r\n"), b"\\t\\r\\n".to_vec());
    assert_eq!(ascii_escape(b"'\"\\"), b"\\'\\\"\\\\".to_vec());
    assert_eq!(ascii_escape(&[0x00, 0x1f, 0x7f, 0x80, 0x9d, 0xff]), b"\\x00\\x1f\\x7f\\x80\\x9d\\xff".to_vec());
    assert_eq!(ascii_escape(&[0x20, 0x7e]), b" ~".to_vec());
}

#[test]
fn unescape_exact_values() {
    assert_eq!(ascii_unescape_default(b""), b"".to_vec());
    assert_eq!(ascii_unescape_default(b"plain"), b"plain".to_vec());
    assert_eq!(ascii_unescape_default(b"\\t\\r\\n\\'\\\"\\\\"), b"\t\r\n'\"\\".to_vec());
    assert_eq!(ascii_unescape_default(b"\\x00\\x9d\\xFF\\xaB"), vec![0x00, 0x9d, 0xff, 0xab]);
    assert_eq!(ascii_unescape_default(&[0xff, 0x00, 0x80]), vec![0xff, 0x00, 0x80]);
}

#[test]
fn unescape_takes_what_is_no_escape_as_it_is() {
    assert_eq!(ascii_unescape_default(b"\\"), b"\\".to_vec());
    assert_eq!(ascii_unescape_default(b"\\q"), b"\\q".to_vec());
    assert_eq!(ascii_unescape_default(b"\\x4"), b"\\x4".to_vec());
    assert_eq!(ascii_unescape_default(b"\\x4g"), b"\\x4g".to_vec());
    assert_eq!(ascii_unescape_default(b"\\xg1z"), b"\\xg1z".to_vec());
    assert_eq!(ascii_unescape_default(b"a\\x"), b"a\\x".to_vec());
}

#[test]
fn unescape_undoes_escape() {
    let all: Vec<u8> = (0..=255u8).collect();
    assert_eq!(ascii_unescape_default(&ascii_escape(&all)), all);
    let tricky = b"\\x41\\\\n\\".to_vec();
    assert_eq!(ascii_unescape_default(&ascii_escape(&tricky)), tricky);
}

#[test]
fn address_of_a_domain_socket_listener() {
    assert_eq!(
        SocketAddr::from_unix_name(Some(b"/run/cache.sock".to_vec()), None),
        unix("/run/cache.sock")
    );
    assert_eq!(
        SocketAddr::from_unix_name(Some(b"/a".to_vec()), Some(b"b".to_vec())),
        unix("/a")
    );
    assert_eq!(
        SocketAddr::from_unix_name(None, Some(b"cache\xff".to_vec())),
        SocketAddr::UnixAbstract(b"cache\xff".to_vec())
    );
    assert_eq!(SocketAddr::from_unix_name(None, None), unix(""));
    assert_eq!(
        SocketAddr::from_unix_name(Some(b"/tmp/\xff".to_vec()), None),
        SocketAddr::Unix(b"/tmp/\xff".to_vec())
    );
}
