//! Numbers as decimal or hexadecimal text: writing them, and reading them
//! greedily from a position in a byte string.

use crate::escape::{hex_digit, hex_value};
use vstd::prelude::*;

verus! {

/// The value of `c` as a digit: decimal, or hexadecimal of either case.
pub open spec fn digit_of(c: u8, hex: bool) -> Option<nat> {
    if hex {
        hex_value(c)
    } else if 0x30 <= c <= 0x39 {
        Some((c - 0x30) as nat)
    } else {
        None
    }
}

/// Whether `text` stands in `s` at `pos`.
pub open spec fn matches_at(s: Seq<u8>, pos: int, text: Seq<u8>) -> bool {
    &&& 0 <= pos
    &&& pos + text.len() <= s.len()
    &&& forall|i: int| 0 <= i < text.len() ==> s[pos + i] == #[trigger] text[i]
}

/// Whether `s` holds the byte `c` at `pos`.
pub open spec fn has_byte(s: Seq<u8>, pos: int, c: u8) -> bool {
    0 <= pos < s.len() && s[pos] == c
}

/// Where the run of digits that begins at `pos` ends.
pub open spec fn digits_end(s: Seq<u8>, pos: int, hex: bool) -> int
    decreases s.len() - pos,
{
    if 0 <= pos < s.len() && digit_of(s[pos], hex) is Some {
        digits_end(s, pos + 1, hex)
    } else {
        pos
    }
}

/// The number that the digits from `from` up to `to` spell.
pub open spec fn digits_value(s: Seq<u8>, from: int, to: int, hex: bool) -> nat
    decreases to - from,
{
    if to <= from {
        0
    } else {
        let front = digits_value(s, from, to - 1, hex);
        let last = digit_of(s[to - 1], hex)->0;
        if hex {
            front * 16 + last
        } else {
            front * 10 + last
        }
    }
}

/// Reads the longest run of digits at `pos` as one number, and gives the
/// number with the position after it.
///
/// There is no number where there is no digit, where the run is longer than
/// `max_digits`, where it has more than one digit and begins with a zero that
/// `zero_prefix` does not allow, or where its value exceeds `max`.
pub open spec fn read_number(
    s: Seq<u8>,
    pos: int,
    hex: bool,
    max_digits: Option<nat>,
    zero_prefix: bool,
    max: nat,
) -> Option<(nat, int)> {
    let end = digits_end(s, pos, hex);
    let value = digits_value(s, pos, end, hex);
    if end == pos {
        None
    } else if max_digits is Some && end - pos > max_digits->0 {
        None
    } else if !zero_prefix && s[pos] == 0x30 && end - pos > 1 {
        None
    } else if value > max {
        None
    } else {
        Some((value, end))
    }
}

/// The digits of `n`, most significant first, without leading zeros.
pub open spec fn render(n: nat, hex: bool) -> Seq<u8>
    decreases n,
{
    if hex {
        if n < 16 {
            seq![hex_digit(n)]
        } else {
            render(n / 16, hex) + seq![hex_digit(n % 16)]
        }
    } else {
        if n < 10 {
            seq![hex_digit(n)]
        } else {
            render(n / 10, hex) + seq![hex_digit(n % 10)]
        }
    }
}

/// A part of a text that stands at a position stands there too.
pub(crate) proof fn lemma_matches_split(s: Seq<u8>, pos: int, a: Seq<u8>, b: Seq<u8>)
    requires
        matches_at(s, pos, a + b),
    ensures
        matches_at(s, pos, a),
        matches_at(s, pos + a.len(), b),
{
    let ab = a + b;
    assert forall|i: int| 0 <= i < a.len() implies s[pos + i] == #[trigger] a[i] by {
        assert(ab[i] == a[i]);
    }
    assert forall|i: int| 0 <= i < b.len() implies s[pos + a.len() + i] == #[trigger] b[i] by {
        assert(ab[a.len() + i] == b[i]);
    }
}

/// The run of digits that begins at `pos` ends at `end` when every byte
/// between them is a digit and the byte at `end`, if there is one, is not.
pub(crate) proof fn lemma_digits_end(s: Seq<u8>, pos: int, end: int, hex: bool)
    requires
        0 <= pos <= end <= s.len(),
        forall|i: int| pos <= i < end ==> (#[trigger] digit_of(s[i], hex)) is Some,
        end < s.len() ==> digit_of(s[end], hex) is None,
    ensures
        digits_end(s, pos, hex) == end,
    decreases end - pos,
{
    if pos < end {
        assert(digit_of(s[pos], hex) is Some);
        lemma_digits_end(s, pos + 1, end, hex);
    }
}

/// The run of digits ends within the text and holds digits only.
pub(crate) proof fn lemma_digits_end_bounds(s: Seq<u8>, pos: int, hex: bool)
    requires
        0 <= pos <= s.len(),
    ensures
        pos <= digits_end(s, pos, hex) <= s.len(),
        forall|i: int|
            pos <= i < digits_end(s, pos, hex) ==> (#[trigger] digit_of(s[i], hex)) is Some,
        digits_end(s, pos, hex) < s.len() ==> digit_of(s[digits_end(s, pos, hex)], hex) is None,
    decreases s.len() - pos,
{
    if pos < s.len() && digit_of(s[pos], hex) is Some {
        lemma_digits_end_bounds(s, pos + 1, hex);
    }
}

/// More digits never spell a smaller number.
pub(crate) proof fn lemma_digits_value_grows(s: Seq<u8>, from: int, mid: int, to: int, hex: bool)
    requires
        from <= mid <= to,
    ensures
        digits_value(s, from, mid, hex) <= digits_value(s, from, to, hex),
    decreases to - mid,
{
    if mid < to {
        lemma_digits_value_grows(s, from, mid, to - 1, hex);
    }
}

/// What the digits of a number look like.
pub(crate) proof fn lemma_render(n: nat, hex: bool)
    ensures
        render(n, hex).len() >= 1,
        forall|i: int|
            0 <= i < render(n, hex).len() ==> (#[trigger] digit_of(render(n, hex)[i], hex))
                is Some,
        forall|i: int|
            0 <= i < render(n, hex).len() ==> 0x30 <= #[trigger] render(n, hex)[i] <= 0x66,
        render(n, hex)[0] == 0x30 <==> n == 0,
        n == 0 ==> render(n, hex).len() == 1,
        !hex && n < 10 ==> render(n, hex).len() == 1,
        !hex && n < 100 ==> render(n, hex).len() <= 2,
        !hex && n < 1000 ==> render(n, hex).len() <= 3,
        hex && n < 0x10 ==> render(n, hex).len() == 1,
        hex && n < 0x100 ==> render(n, hex).len() <= 2,
        hex && n < 0x1000 ==> render(n, hex).len() <= 3,
        hex && n < 0x1_0000 ==> render(n, hex).len() <= 4,
    decreases n,
{
    let text = render(n, hex);
    if hex {
        if n >= 16 {
            lemma_render(n / 16, hex);
            let front = render(n / 16, hex);
            assert(text[0] == front[0]);
            assert forall|i: int| 0 <= i < text.len() implies (#[trigger] digit_of(text[i], hex))
                is Some && 0x30 <= text[i] <= 0x66 by {
                if i < front.len() {
                    assert(text[i] == front[i]);
                }
            }
        }
    } else {
        if n >= 10 {
            lemma_render(n / 10, hex);
            let front = render(n / 10, hex);
            assert(text[0] == front[0]);
            assert forall|i: int| 0 <= i < text.len() implies (#[trigger] digit_of(text[i], hex))
                is Some && 0x30 <= text[i] <= 0x66 by {
                if i < front.len() {
                    assert(text[i] == front[i]);
                }
            }
        }
    }
}

/// The digits of a number spell that number.
pub(crate) proof fn lemma_render_value(s: Seq<u8>, pos: int, n: nat, hex: bool)
    requires
        matches_at(s, pos, render(n, hex)),
    ensures
        digits_value(s, pos, pos + render(n, hex).len(), hex) == n,
    decreases n,
{
    let text = render(n, hex);
    let end = pos + text.len();
    let small = if hex {
        n < 16
    } else {
        n < 10
    };
    if small {
        assert(s[pos] == text[0]);
        assert(digits_value(s, pos, pos, hex) == 0);
    } else {
        let front = if hex {
            render(n / 16, hex)
        } else {
            render(n / 10, hex)
        };
        let last = if hex {
            seq![hex_digit(n % 16)]
        } else {
            seq![hex_digit(n % 10)]
        };
        assert(text == front + last);
        lemma_matches_split(s, pos, front, last);
        assert(s[end - 1] == last[0]);
        if hex {
            lemma_render_value(s, pos, n / 16, hex);
        } else {
            lemma_render_value(s, pos, n / 10, hex);
        }
    }
}

/// A number written out is read back, provided that no digit follows it and
/// that it is within the limits of the reading.
pub(crate) proof fn lemma_read_rendered(
    s: Seq<u8>,
    pos: int,
    n: nat,
    hex: bool,
    max_digits: Option<nat>,
    zero_prefix: bool,
    max: nat,
)
    requires
        matches_at(s, pos, render(n, hex)),
        pos + render(n, hex).len() < s.len() ==> digit_of(s[pos + render(n, hex).len()], hex)
            is None,
        n <= max,
        max_digits is Some ==> render(n, hex).len() <= max_digits->0,
    ensures
        read_number(s, pos, hex, max_digits, zero_prefix, max) == Some(
            (n, pos + render(n, hex).len()),
        ),
{
    let text = render(n, hex);
    let end = pos + text.len();
    lemma_render(n, hex);
    assert forall|i: int| pos <= i < end implies (#[trigger] digit_of(s[i], hex)) is Some by {
        assert(s[i] == text[i - pos]);
    }
    lemma_digits_end(s, pos, end, hex);
    lemma_render_value(s, pos, n, hex);
    assert(s[pos] == text[0]);
}

/// Appends the digits of `n` to `out`.
pub fn push_number(out: &mut Vec<u8>, n: u32, hex: bool)
    ensures
        final(out)@ == old(out)@ + render(n as nat, hex),
    decreases n,
{
    let radix: u32 = if hex {
        16
    } else {
        10
    };
    if n >= radix {
        push_number(out, n / radix, hex);
    }
    let d: u8 = (n % radix) as u8;
    let c: u8 = if d < 10 {
        0x30 + d
    } else {
        0x57 + d
    };
    let ghost before = out@;
    out.push(c);
    proof {
        assert(c == hex_digit((n % radix) as nat));
        assert(out@ =~= before + seq![c]);
        if n >= radix {
            assert(before == old(out)@ + render((n / radix) as nat, hex));
            assert(render(n as nat, hex) == render((n / radix) as nat, hex) + seq![c]);
            assert(out@ =~= old(out)@ + render(n as nat, hex));
        } else {
            assert(render(n as nat, hex) =~= seq![c]);
        }
    }
}

/// Reads the number at `pos`, if there is one within the limits given.
pub fn scan_number(
    s: &[u8],
    pos: usize,
    hex: bool,
    max_digits: Option<usize>,
    zero_prefix: bool,
    max: u32,
) -> (r: Option<(u32, usize)>)
    requires
        pos <= s@.len(),
    ensures
        match r {
            Some((value, end)) => read_number(
                s@,
                pos as int,
                hex,
                match max_digits {
                    Some(m) => Some(m as nat),
                    None => None,
                },
                zero_prefix,
                max as nat,
            ) == Some((value as nat, end as int)) && pos < end <= s@.len(),
            None => read_number(
                s@,
                pos as int,
                hex,
                match max_digits {
                    Some(m) => Some(m as nat),
                    None => None,
                },
                zero_prefix,
                max as nat,
            ) is None,
        },
{
    let mut i: usize = pos;
    let mut value: u32 = 0;
    proof {
        lemma_digits_end_bounds(s@, pos as int, hex);
    }
    let ghost end = digits_end(s@, pos as int, hex);
    while i < s.len()
        invariant
            pos <= i <= end <= s@.len(),
            end == digits_end(s@, pos as int, hex),
            end == digits_end(s@, i as int, hex),
            value == digits_value(s@, pos as int, i as int, hex),
            value <= max,
        ensures
            i == end,
        decreases s@.len() - i,
    {
        let c = s[i];
        let digit: Option<u8> = if 0x30 <= c && c <= 0x39 {
            Some(c - 0x30)
        } else if hex && 0x61 <= c && c <= 0x66 {
            Some(c - 0x57)
        } else if hex && 0x41 <= c && c <= 0x46 {
            Some(c - 0x37)
        } else {
            None
        };
        match digit {
            None => {
                assert(digit_of(c, hex) is None);
                break ;
            },
            Some(d) => {
                assert(digit_of(c, hex) == Some(d as nat));
                proof {
                    lemma_digits_end_bounds(s@, i + 1, hex);
                }
                let wide: u64 = if hex {
                    value as u64 * 16 + d as u64
                } else {
                    value as u64 * 10 + d as u64
                };
                assert(wide == digits_value(s@, pos as int, i + 1, hex));
                if wide > max as u64 {
                    proof {
                        lemma_digits_value_grows(s@, pos as int, i + 1, end, hex);
                    }
                    return None;
                }
                value = wide as u32;
                i = i + 1;
            },
        }
    }
    if i == pos {
        return None;
    }
    match max_digits {
        Some(m) => {
            if i - pos > m {
                return None;
            }
        },
        None => {},
    }
    if !zero_prefix && s[pos] == 0x30 && i - pos > 1 {
        return None;
    }
    Some((value, i))
}

} // verus!
