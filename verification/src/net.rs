//! Addresses of transport endpoints and their textual form.

use crate::connection::Connection;
use crate::escape::{
    ascii_escape, ascii_unescape_default, escape, lemma_escape_printable,
    lemma_unescape_escape, unescape,
};
use crate::ip::{
    format_socket_addr, parse_socket_addr, socket_addr_of_text, text_socket_addr, NetAddr,
    NetAddrView, COLON,
};
use crate::ip_text::lemma_socket_addr_round_trip;
use vstd::prelude::*;
use vstd::slice::{slice_subrange, slice_to_vec};
use vstd::string::StringSliceAdditionalSpecFns;
use vstd::utf8::{
    decode_utf8, decode_utf8_encode_utf8, encode_utf8, encode_utf8_decode_utf8,
    encode_utf8_valid_utf8, is_ascii_chars, is_ascii_chars_encode_utf8, valid_utf8,
};

verus! {

/// Where a server listens, or where a client reaches it.
#[derive(Debug, Clone, PartialEq, Eq, Hash)]
pub enum SocketAddr {
    /// An IP address and a port.
    Net(NetAddr),
    /// The filesystem path of a domain socket, in the bytes that the system
    /// knows it by. They need not be valid UTF-8.
    Unix(Vec<u8>),
    /// The name of a domain socket in the abstract namespace: any bytes.
    UnixAbstract(Vec<u8>),
}

/// The mathematical value of a `SocketAddr`.
pub enum SocketAddrView {
    /// An IP address and a port.
    Net(NetAddrView),
    /// The bytes of a path.
    Unix(Seq<u8>),
    /// The bytes of an abstract name.
    UnixAbstract(Seq<u8>),
}

impl SocketAddrView {
    /// A network address has its four octets or its eight groups.
    pub open spec fn wf(self) -> bool {
        self matches SocketAddrView::Net(net) ==> net.wf()
    }
}

impl View for SocketAddr {
    type V = SocketAddrView;

    open spec fn view(&self) -> SocketAddrView {
        match self {
            SocketAddr::Net(addr) => SocketAddrView::Net(addr@),
            SocketAddr::Unix(path) => SocketAddrView::Unix(path@),
            SocketAddr::UnixAbstract(name) => SocketAddrView::UnixAbstract(name@),
        }
    }
}

/// The text that stands for bytes that are not valid UTF-8: what can be
/// decoded is kept, and a replacement character stands for what cannot.
pub uninterp spec fn lossy_text(bytes: Seq<u8>) -> Seq<char>;

/// The text of a path: the characters that its bytes encode, where they
/// encode any, and a text with replacement characters otherwise.
pub open spec fn path_text(bytes: Seq<u8>) -> Seq<char> {
    if valid_utf8(bytes) {
        decode_utf8(bytes)
    } else {
        lossy_text(bytes)
    }
}

/// The text whose characters are the given ASCII bytes.
pub open spec fn ascii_text(bytes: Seq<u8>) -> Seq<char> {
    Seq::new(bytes.len(), |i: int| bytes[i] as char)
}

/// The address that a text names. Every text names one:
/// a text that begins with a zero byte, the mark of an abstract name, names
/// the abstract socket whose name is the rest of the text, unescaped; any
/// other text with a colon that spells a network address names that address;
/// every other text is a path.
pub open spec fn parse_text(text: Seq<char>) -> SocketAddrView {
    let bytes = encode_utf8(text);
    if bytes.len() > 0 && bytes[0] == 0 {
        SocketAddrView::UnixAbstract(unescape(bytes.skip(1)))
    } else if bytes.contains(COLON) && socket_addr_of_text(bytes) is Some {
        SocketAddrView::Net(socket_addr_of_text(bytes)->0)
    } else {
        SocketAddrView::Unix(bytes)
    }
}

/// The text of an address: a network address in its usual form, a path as
/// far as its bytes are text, an abstract name escaped after a zero byte that
/// marks it.
pub open spec fn format_text(addr: SocketAddrView) -> Seq<char> {
    match addr {
        SocketAddrView::Net(net) => ascii_text(text_socket_addr(net)),
        SocketAddrView::Unix(path) => path_text(path),
        SocketAddrView::UnixAbstract(name) => ascii_text(seq![0u8] + escape(name)),
    }
}

/// The addresses that come back unchanged from their text.
///
/// A network address does unless it is an IPv6 address with flow
/// information, which the text leaves out. A path does unless it is not
/// valid UTF-8, begins with a zero byte or spells a network address. An
/// abstract name always does, whatever bytes it holds.
pub open spec fn round_trips(addr: SocketAddrView) -> bool {
    match addr {
        SocketAddrView::Net(net) => net matches NetAddrView::V6 { flowinfo, .. } ==> flowinfo
            == 0,
        SocketAddrView::Unix(path) => {
            &&& valid_utf8(path)
            &&& !(path.len() > 0 && path[0] == 0)
            &&& !(path.contains(COLON) && socket_addr_of_text(path) is Some)
        },
        SocketAddrView::UnixAbstract(_) => true,
    }
}

/// The text of ASCII bytes is encoded as those bytes.
pub(crate) proof fn lemma_ascii_text_bytes(bytes: Seq<u8>)
    requires
        forall|i: int| 0 <= i < bytes.len() ==> #[trigger] bytes[i] < 0x80,
    ensures
        encode_utf8(ascii_text(bytes)) == bytes,
        valid_utf8(bytes),
        path_text(bytes) == ascii_text(bytes),
{
    let text = ascii_text(bytes);
    assert(is_ascii_chars(text)) by {
        assert forall|i: int| 0 <= i < text.len() implies '\0' <= #[trigger] text[i]
            <= '\u{7f}' by {
            assert(bytes[i] < 0x80);
        }
    }
    is_ascii_chars_encode_utf8(text);
    assert forall|i: int| 0 <= i < bytes.len() implies encode_utf8(text)[i] == bytes[i] by {
        assert(text[i] as u8 == encode_utf8(text)[i]);
        assert(bytes[i] < 0x80);
    }
    assert(encode_utf8(text) =~= bytes);
    encode_utf8_valid_utf8(text);
    encode_utf8_decode_utf8(text);
}

/// Formatting an address and parsing the text gives the address back
/// exactly where `round_trips` holds.
pub proof fn lemma_parse_format(addr: SocketAddrView)
    requires
        addr.wf(),
    ensures
        parse_text(format_text(addr)) == addr <==> round_trips(addr),
{
    match addr {
        SocketAddrView::Net(net) => {
            let written = match net {
                NetAddrView::V4 { .. } => net,
                NetAddrView::V6 { ip, port, scope_id, .. } => NetAddrView::V6 {
                    ip,
                    port,
                    flowinfo: 0,
                    scope_id,
                },
            };
            let bytes = text_socket_addr(net);
            assert(bytes == text_socket_addr(written));
            lemma_socket_addr_round_trip(written);
            lemma_ascii_text_bytes(bytes);
            assert(parse_text(format_text(addr)) == SocketAddrView::Net(written));
        },
        SocketAddrView::Unix(path) => {
            let text = path_text(path);
            encode_utf8_valid_utf8(text);
            if valid_utf8(path) {
                decode_utf8_encode_utf8(path);
            }
        },
        SocketAddrView::UnixAbstract(name) => {
            let bytes = seq![0u8] + escape(name);
            lemma_escape_printable(name);
            assert forall|i: int| 0 <= i < bytes.len() implies #[trigger] bytes[i] < 0x80 by {
                if i > 0 {
                    assert(bytes[i] == escape(name)[i - 1]);
                }
            }
            lemma_ascii_text_bytes(bytes);
            lemma_unescape_escape(name);
            assert(bytes.skip(1) =~= escape(name));
        },
    }
}

fn contains_byte(bytes: &[u8], c: u8) -> (found: bool)
    ensures
        found == bytes@.contains(c),
{
    let mut i: usize = 0;
    while i < bytes.len()
        invariant
            i <= bytes@.len(),
            forall|j: int| 0 <= j < i ==> bytes@[j] != c,
        decreases bytes@.len() - i,
    {
        if bytes[i] == c {
            return true;
        }
        i = i + 1;
    }
    false
}

/// Makes a string of bytes, with replacement characters for what is not
/// valid UTF-8.
///
/// Trusted: calls `String::from_utf8_lossy`. The claim is that bytes which
/// are valid UTF-8 come back as the text that they encode, and that other
/// bytes come back as a text that depends on them alone.
#[verifier::external_body]
fn lossy_string(bytes: &[u8]) -> (text: String)
    ensures
        text@ == if valid_utf8(bytes@) {
            decode_utf8(bytes@)
        } else {
            lossy_text(bytes@)
        },
{
    String::from_utf8_lossy(bytes).into_owned()
}

impl SocketAddr {
    /// Parses a text into an address. The text is meant to be one that
    /// `to_string` gave, but every text is accepted: what is neither a marked
    /// abstract name nor a network address is taken as a path.
    pub fn parse(s: &str) -> (addr: SocketAddr)
        ensures
            addr@ == parse_text(s@),
    {
        let bytes = s.as_bytes();
        if bytes.len() > 0 && bytes[0] == 0 {
            let escaped = slice_subrange(bytes, 1, bytes.len());
            assert(escaped@ =~= bytes@.skip(1));
            return SocketAddr::UnixAbstract(ascii_unescape_default(escaped));
        }
        if contains_byte(bytes, COLON) {
            match parse_socket_addr(bytes) {
                Some(net) => {
                    return SocketAddr::Net(net);
                },
                None => {},
            }
        }
        SocketAddr::Unix(slice_to_vec(bytes))
    }

    /// The text of the address.
    pub fn to_string(&self) -> (text: String)
        ensures
            text@ == format_text(self@),
    {
        match self {
            SocketAddr::Net(net) => {
                let bytes = format_socket_addr(net);
                proof {
                    lemma_socket_addr_text_ascii(net@);
                    lemma_ascii_text_bytes(bytes@);
                }
                lossy_string(bytes.as_slice())
            },
            SocketAddr::Unix(path) => lossy_string(path.as_slice()),
            SocketAddr::UnixAbstract(name) => {
                let escaped = ascii_escape(name.as_slice());
                let mut bytes: Vec<u8> = Vec::new();
                bytes.push(0);
                bytes.extend_from_slice(escaped.as_slice());
                proof {
                    lemma_escape_printable(name@);
                    assert(bytes@ =~= seq![0u8] + escape(name@));
                    assert forall|i: int| 0 <= i < bytes@.len() implies #[trigger] bytes@[i]
                        < 0x80 by {
                        if i > 0 {
                            assert(bytes@[i] == escape(name@)[i - 1]);
                        }
                    }
                    lemma_ascii_text_bytes(bytes@);
                }
                lossy_string(bytes.as_slice())
            },
        }
    }

    /// The address that a domain-socket listener is bound to, from what the
    /// system reports of it: its path if it has one, else its abstract name
    /// if it has one, else the empty path of an unnamed socket.
    pub fn from_unix_name(pathname: Option<Vec<u8>>, abstract_name: Option<Vec<u8>>) -> (addr:
        SocketAddr)
        ensures
            addr@ == match pathname {
                Some(path) => SocketAddrView::Unix(path@),
                None => match abstract_name {
                    Some(name) => SocketAddrView::UnixAbstract(name@),
                    None => SocketAddrView::Unix(Seq::empty()),
                },
            },
    {
        match pathname {
            Some(path) => SocketAddr::Unix(path),
            None => match abstract_name {
                Some(name) => SocketAddr::UnixAbstract(name),
                None => SocketAddr::Unix(Vec::new()),
            },
        }
    }
}

/// Opens a connection to `addr` with the connector for its kind of socket:
/// one call of `network` with the network address, of `path` with the path,
/// or of `abstract_name` with the name, whose outcome is handed on.
pub fn connect<C, T, U, A>(addr: &SocketAddr, network: &T, path: &U, abstract_name: &A) -> (r:
    Result<C, C::Error>) where
    C: Connection,
    T: Fn(&NetAddr) -> Result<C, C::Error>,
    U: Fn(&Vec<u8>) -> Result<C, C::Error>,
    A: Fn(&Vec<u8>) -> Result<C, C::Error>,

    requires
        match addr {
            SocketAddr::Net(net) => network.requires((net,)),
            SocketAddr::Unix(file) => path.requires((file,)),
            SocketAddr::UnixAbstract(name) => abstract_name.requires((name,)),
        },
    ensures
        match addr {
            SocketAddr::Net(net) => network.ensures((net,), r),
            SocketAddr::Unix(file) => path.ensures((file,), r),
            SocketAddr::UnixAbstract(name) => abstract_name.ensures((name,), r),
        },
{
    match addr {
        SocketAddr::Net(net) => network(net),
        SocketAddr::Unix(file) => path(file),
        SocketAddr::UnixAbstract(name) => abstract_name(name),
    }
}

/// The text of a network address is ASCII.
pub(crate) proof fn lemma_socket_addr_text_ascii(addr: NetAddrView)
    requires
        addr.wf(),
    ensures
        forall|i: int|
            0 <= i < text_socket_addr(addr).len() ==> #[trigger] text_socket_addr(addr)[i] < 0x80,
{
    let plain = match addr {
        NetAddrView::V4 { .. } => addr,
        NetAddrView::V6 { ip, port, scope_id, .. } => NetAddrView::V6 {
            ip,
            port,
            flowinfo: 0,
            scope_id,
        },
    };
    lemma_socket_addr_round_trip(plain);
    assert(text_socket_addr(plain) == text_socket_addr(addr));
}

} // verus!
