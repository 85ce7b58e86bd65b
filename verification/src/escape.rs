//! Printable escaping of arbitrary bytes, and its inverse.
//!
//! A byte is written as itself when it is printable ASCII other than a quote
//! or a backslash, as a two-character escape when it is a tab, a carriage
//! return, a line feed, a quote or a backslash, and as `\x` with two lowercase
//! hexadecimal digits otherwise.

use vstd::prelude::*;

verus! {

/// The lowercase hexadecimal digit for a value below sixteen.
pub open spec fn hex_digit(n: nat) -> u8 {
    if n < 10 {
        (0x30 + n) as u8
    } else {
        (0x57 + n) as u8
    }
}

/// The value of a hexadecimal digit of either case.
pub open spec fn hex_value(c: u8) -> Option<nat> {
    if 0x30 <= c <= 0x39 {
        Some((c - 0x30) as nat)
    } else if 0x61 <= c <= 0x66 {
        Some((c - 0x57) as nat)
    } else if 0x41 <= c <= 0x46 {
        Some((c - 0x37) as nat)
    } else {
        None
    }
}

/// The escaped form of one byte.
pub open spec fn escape_byte(b: u8) -> Seq<u8> {
    if b == 0x09 {
        seq![0x5cu8, 0x74u8]
    } else if b == 0x0d {
        seq![0x5cu8, 0x72u8]
    } else if b == 0x0a {
        seq![0x5cu8, 0x6eu8]
    } else if b == 0x27 || b == 0x22 || b == 0x5c {
        seq![0x5cu8, b]
    } else if 0x20 <= b <= 0x7e {
        seq![b]
    } else {
        seq![0x5cu8, 0x78u8, hex_digit(b as nat / 16), hex_digit(b as nat % 16)]
    }
}

/// The escaped form of a byte sequence: the escaped forms of its bytes, in
/// order.
pub open spec fn escape(bytes: Seq<u8>) -> Seq<u8>
    decreases bytes.len(),
{
    if bytes.len() == 0 {
        Seq::empty()
    } else {
        escape_byte(bytes[0]) + escape(bytes.skip(1))
    }
}

/// The byte that the front of a non-empty text stands for, and the number of
/// bytes of text that spell it. A backslash that begins no escape stands for
/// itself.
pub open spec fn unescape_first(text: Seq<u8>) -> (u8, nat) {
    if text[0] == 0x5c && text.len() >= 2 {
        let c = text[1];
        if c == 0x74 {
            (0x09u8, 2nat)
        } else if c == 0x72 {
            (0x0du8, 2nat)
        } else if c == 0x6e {
            (0x0au8, 2nat)
        } else if c == 0x27 || c == 0x22 || c == 0x5c {
            (c, 2nat)
        } else if c == 0x78 && text.len() >= 4 && hex_value(text[2]) is Some && hex_value(
            text[3],
        ) is Some {
            ((hex_value(text[2])->0 * 16 + hex_value(text[3])->0) as u8, 4nat)
        } else {
            (0x5cu8, 1nat)
        }
    } else {
        (text[0], 1nat)
    }
}

/// The bytes that an escaped text stands for. Every text stands for some
/// bytes: what is not an escape is taken as it is.
pub open spec fn unescape(text: Seq<u8>) -> Seq<u8>
    decreases text.len(),
{
    if text.len() == 0 {
        Seq::empty()
    } else {
        let (b, n) = unescape_first(text);
        seq![b] + unescape(text.skip(n as int))
    }
}

/// Whether every byte is printable ASCII.
pub open spec fn is_printable(text: Seq<u8>) -> bool {
    forall|i: int| 0 <= i < text.len() ==> 0x20 <= #[trigger] text[i] <= 0x7e
}

fn hex_digit_of(n: u8) -> (c: u8)
    requires
        n < 16,
    ensures
        c == hex_digit(n as nat),
{
    if n < 10 {
        0x30 + n
    } else {
        0x57 + n
    }
}

fn hex_value_of(c: u8) -> (v: Option<u8>)
    ensures
        match v {
            Some(n) => hex_value(c) == Some(n as nat) && n < 16,
            None => hex_value(c) is None,
        },
{
    if 0x30 <= c && c <= 0x39 {
        Some(c - 0x30)
    } else if 0x61 <= c && c <= 0x66 {
        Some(c - 0x57)
    } else if 0x41 <= c && c <= 0x46 {
        Some(c - 0x37)
    } else {
        None
    }
}

/// Escapes `bytes` into printable ASCII.
pub fn ascii_escape(bytes: &[u8]) -> (text: Vec<u8>)
    ensures
        text@ == escape(bytes@),
{
    let mut text: Vec<u8> = Vec::new();
    let mut i: usize = 0;
    assert(bytes@.skip(0) =~= bytes@);
    assert(text@ + escape(bytes@) =~= escape(bytes@));
    while i < bytes.len()
        invariant
            i <= bytes@.len(),
            escape(bytes@) == text@ + escape(bytes@.skip(i as int)),
        decreases bytes@.len() - i,
    {
        let b = bytes[i];
        let ghost before = text@;
        proof {
            assert(bytes@.skip(i as int).skip(1) =~= bytes@.skip(i + 1));
            assert(bytes@.skip(i as int)[0] == b);
        }
        if b == 0x09 {
            text.push(0x5c);
            text.push(0x74);
        } else if b == 0x0d {
            text.push(0x5c);
            text.push(0x72);
        } else if b == 0x0a {
            text.push(0x5c);
            text.push(0x6e);
        } else if b == 0x27 || b == 0x22 || b == 0x5c {
            text.push(0x5c);
            text.push(b);
        } else if 0x20 <= b && b <= 0x7e {
            text.push(b);
        } else {
            text.push(0x5c);
            text.push(0x78);
            text.push(hex_digit_of(b / 16));
            text.push(hex_digit_of(b % 16));
        }
        assert(text@ =~= before + escape_byte(b));
        assert(text@ + escape(bytes@.skip(i + 1)) =~= before + (escape_byte(b) + escape(
            bytes@.skip(i + 1),
        )));
        i = i + 1;
    }
    assert(text@ + Seq::<u8>::empty() =~= text@);
    text
}

/// Turns an escaped text back into bytes. Text that is not an escape stands
/// for itself, so every text is accepted.
pub fn ascii_unescape_default(text: &[u8]) -> (bytes: Vec<u8>)
    ensures
        bytes@ == unescape(text@),
{
    let mut bytes: Vec<u8> = Vec::new();
    let mut i: usize = 0;
    assert(text@.skip(0) =~= text@);
    assert(bytes@ + unescape(text@) =~= unescape(text@));
    while i < text.len()
        invariant
            i <= text@.len(),
            unescape(text@) == bytes@ + unescape(text@.skip(i as int)),
        decreases text@.len() - i,
    {
        let ghost rest = text@.skip(i as int);
        let ghost before = bytes@;
        let c = text[i];
        let mut value: u8 = c;
        let mut used: usize = 1;
        if c == 0x5c && text.len() - i >= 2 {
            let e = text[i + 1];
            assert(rest[1] == e);
            if e == 0x74 {
                value = 0x09;
                used = 2;
            } else if e == 0x72 {
                value = 0x0d;
                used = 2;
            } else if e == 0x6e {
                value = 0x0a;
                used = 2;
            } else if e == 0x27 || e == 0x22 || e == 0x5c {
                value = e;
                used = 2;
            } else if e == 0x78 && text.len() - i >= 4 {
                assert(rest[2] == text@[i + 2] && rest[3] == text@[i + 3]);
                match (hex_value_of(text[i + 2]), hex_value_of(text[i + 3])) {
                    (Some(high), Some(low)) => {
                        value = high * 16 + low;
                        used = 4;
                    },
                    _ => {},
                }
            }
        }
        assert(unescape_first(rest) == (value, used as nat));
        bytes.push(value);
        proof {
            assert(rest.skip(used as int) =~= text@.skip(i + used));
            assert(bytes@ + unescape(text@.skip(i + used)) =~= before + (seq![value] + unescape(
                text@.skip(i + used),
            )));
        }
        i = i + used;
    }
    assert(bytes@ + Seq::<u8>::empty() =~= bytes@);
    bytes
}

/// An escaped byte is printable, and is read back as that byte whatever
/// follows it.
pub(crate) proof fn lemma_escape_byte(b: u8, more: Seq<u8>)
    ensures
        1 <= escape_byte(b).len() <= 4,
        is_printable(escape_byte(b)),
        unescape_first(escape_byte(b) + more) == (b, escape_byte(b).len()),
{
    let text = escape_byte(b) + more;
    assert(text[0] == escape_byte(b)[0]);
    if escape_byte(b).len() >= 2 {
        assert(text[1] == escape_byte(b)[1]);
    }
    if escape_byte(b).len() == 4 {
        assert(text[2] == escape_byte(b)[2]);
        assert(text[3] == escape_byte(b)[3]);
        let high = b as nat / 16;
        let low = b as nat % 16;
        assert(hex_value(hex_digit(high)) == Some(high));
        assert(hex_value(hex_digit(low)) == Some(low));
        assert(high * 16 + low == b);
    }
}

/// Escaped text is printable ASCII.
pub proof fn lemma_escape_printable(bytes: Seq<u8>)
    ensures
        is_printable(escape(bytes)),
    decreases bytes.len(),
{
    if bytes.len() > 0 {
        lemma_escape_byte(bytes[0], Seq::empty());
        lemma_escape_printable(bytes.skip(1));
    }
}

/// Unescaping undoes escaping, byte for byte.
pub proof fn lemma_unescape_escape(bytes: Seq<u8>)
    ensures
        unescape(escape(bytes)) == bytes,
    decreases bytes.len(),
{
    if bytes.len() > 0 {
        let head = escape_byte(bytes[0]);
        let tail = escape(bytes.skip(1));
        lemma_escape_byte(bytes[0], tail);
        lemma_unescape_escape(bytes.skip(1));
        assert((head + tail).skip(head.len() as int) =~= tail);
        assert(seq![bytes[0]] + bytes.skip(1) =~= bytes);
    }
}

} // verus!
