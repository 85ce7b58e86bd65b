use cache_transport::escape::ascii_escape;
use cache_transport::ip::{format_socket_addr, parse_socket_addr, NetAddr};

fn six(ip: [u16; 8], port: u16, scope_id: u32) -> Option<NetAddr> {
    Some(NetAddr::V6 { ip, port, flowinfo: 0, scope_id })
}

/// A small generator of repeatable numbers.
struct Numbers(u64);

impl Numbers {
    fn next(&mut self) -> u64 {
        self.0 = self.0.wrapping_mul(6364136223846793005).wrapping_add(1442695040888963407);
        self.0 >> 16
    }
}

#[test]
fn shortened_ipv6_forms() {
    assert_eq!(parse_socket_addr(b"[1::]:80"), six([1, 0, 0, 0, 0, 0, 0, 0], 80, 0));
    assert_eq!(parse_socket_addr(b"[1:2:3:4:5:6:7::]:9"), six([1, 2, 3, 4, 5, 6, 7, 0], 9, 0));
    assert_eq!(parse_socket_addr(b"[::2:3:4:5:6:7:8]:9"), six([0, 2, 3, 4, 5, 6, 7, 8], 9, 0));
    assert_eq!(parse_socket_addr(b"[1::3:4:5:6:7:8]:9"), six([1, 0, 3, 4, 5, 6, 7, 8], 9, 0));
    assert_eq!(parse_socket_addr(b"[1::2:3:4:5:6:7]:1"), six([1, 0, 2, 3, 4, 5, 6, 7], 1, 0));
    assert_eq!(parse_socket_addr(b"[0000::]:9"), six([0; 8], 9, 0));
    assert_eq!(parse_socket_addr(b"[0:0:0:0:0:0:0:0]:1"), six([0; 8], 1, 0));
    assert_eq!(
        parse_socket_addr(b"[ffff:FFFF::AbCd]:9"),
        six([0xffff, 0xffff, 0, 0, 0, 0, 0, 0xabcd], 9, 0)
    );
    assert_eq!(
        parse_socket_addr(b"[a:b:c:d:e:f:0:1]:2"),
        six([0xa, 0xb, 0xc, 0xd, 0xe, 0xf, 0, 1], 2, 0)
    );
    assert_eq!(parse_socket_addr(b"[1:2:3:4::5:6:7:8]:9"), None);
    assert_eq!(parse_socket_addr(b"[1::2::3]:9"), None);
    assert_eq!(parse_socket_addr(b"[00001::]:9"), None);
    assert_eq!(parse_socket_addr(b"[::1 ]:9"), None);
}

#[test]
fn embedded_ipv4_forms() {
    assert_eq!(parse_socket_addr(b"[::1.2.3.4]:9"), six([0, 0, 0, 0, 0, 0, 0x102, 0x304], 9, 0));
    assert_eq!(parse_socket_addr(b"[::0.0.0.0]:1"), six([0; 8], 1, 0));
    assert_eq!(
        parse_socket_addr(b"[1::1.2.3.4]:9"),
        six([1, 0, 0, 0, 0, 0, 0x102, 0x304], 9, 0)
    );
    assert_eq!(
        parse_socket_addr(b"[1:2::1.2.3.4]:0"),
        six([1, 2, 0, 0, 0, 0, 0x102, 0x304], 0, 0)
    );
    assert_eq!(
        parse_socket_addr(b"[::ffff:255.255.255.255%7]:65535"),
        six([0, 0, 0, 0, 0, 0xffff, 0xffff, 0xffff], 65535, 7)
    );
    assert_eq!(parse_socket_addr(b"[1:2:3:4:5:1.2.3.4]:9"), None);
    assert_eq!(parse_socket_addr(b"[1:2:3:4:5:6:7:1.2.3.4]:9"), None);
    assert_eq!(parse_socket_addr(b"[::1.2.3.4:5]:9"), None);
    assert_eq!(parse_socket_addr(b"[::1.2.3]:9"), None);
    assert_eq!(parse_socket_addr(b"[::1.2.3.256]:9"), None);
    assert_eq!(parse_socket_addr(b"[::01.2.3.4]:9"), None);
    assert_eq!(parse_socket_addr(b"[1.2.3.4]:9"), None);
}

#[test]
fn scope_identifiers() {
    assert_eq!(parse_socket_addr(b"[::1%1]:9"), six([0, 0, 0, 0, 0, 0, 0, 1], 9, 1));
    assert_eq!(parse_socket_addr(b"[::1%0]:9"), six([0, 0, 0, 0, 0, 0, 0, 1], 9, 0));
    assert_eq!(parse_socket_addr(b"[::1%001]:9"), six([0, 0, 0, 0, 0, 0, 0, 1], 9, 1));
    assert_eq!(parse_socket_addr(b"[::%1]:9"), six([0; 8], 9, 1));
    assert_eq!(
        parse_socket_addr(b"[1:2:3:4:5:6:7:8%3]:9"),
        six([1, 2, 3, 4, 5, 6, 7, 8], 9, 3)
    );
    assert_eq!(parse_socket_addr(b"[::1%eth0]:9"), None);
    assert_eq!(parse_socket_addr(b"[::1%1%2]:9"), None);
    assert_eq!(parse_socket_addr(b"[%1]:9"), None);
}

#[test]
fn what_is_no_network_address() {
    for text in [
        "", ":", "[", "]", "[]:9", "[:]:9", "[::", "[::1]:9x", "[::1]9", "x[::1]:9", "1.2.3.4",
        "1.2.3.4:99999999999999999999", "1.02.3.4:5", "0.0.0.00:5", "0001.2.3.4:5", "1..3.4:5",
        ".1.2.3.4:5", "1.2.3.4::5", "1.2.3.4:+5", "1.2.3.4:0x5", "1.2.3.4:5\n", "\u{661}.2.3.4:5",
    ] {
        assert_eq!(parse_socket_addr(text.as_bytes()), None, "{:?}", text);
    }
}

#[test]
fn generated_addresses_round_trip() {
    let mut numbers = Numbers(0x5eed);
    for _ in 0..500 {
        let mut ip = [0u16; 8];
        let zeros = numbers.next();
        for (i, group) in ip.iter_mut().enumerate() {
            let shift = numbers.next() % 16;
            *group = if zeros >> i & 1 == 1 { 0 } else { (numbers.next() as u16) >> shift };
        }
        if numbers.next() % 8 == 0 {
            ip[0] = 0;
            ip[1] = 0;
            ip[2] = 0;
            ip[3] = 0;
            ip[4] = 0;
            ip[5] = if numbers.next() % 2 == 0 { 0xffff } else { 0 };
        }
        let shift = numbers.next() % 32;
        let scope_id = if numbers.next() % 2 == 0 { 0 } else { (numbers.next() as u32) >> shift };
        let six = NetAddr::V6 { ip, port: numbers.next() as u16, flowinfo: 0, scope_id };
        let shift = numbers.next() % 16;
        let four = NetAddr::V4 {
            ip: (numbers.next() as u32).to_be_bytes(),
            port: (numbers.next() as u16) >> shift,
        };
        for addr in [six, four] {
            let text = format_socket_addr(&addr);
            assert!(text.iter().all(|b| (0x20..=0x7e).contains(b)));
            assert_eq!(parse_socket_addr(&text), Some(addr), "{:?}", String::from_utf8(text));
        }
    }
}

#[test]
fn escaping_agrees_with_the_standard_escape() {
    let all: Vec<u8> = (0..=255u8).collect();
    assert_eq!(String::from_utf8(ascii_escape(&all)).unwrap(), all.escape_ascii().to_string());
    assert_eq!(String::from_utf8(ascii_escape(b"")).unwrap(), b"".escape_ascii().to_string());
}
