//! The duplex byte stream that messages travel over, and the sending and
//! receiving of one framed message on it.

use crate::frame::{
    encode_frame, frame, lemma_read_frame_parts, lemma_scan_incomplete, prefix_len, read_frame,
    FrameError, FrameRead, MAX_MESSAGE_LEN,
};
use crate::varint::{decode_varint32, read_varint32, VarintRead};
use vstd::prelude::*;
use vstd::slice::slice_subrange;

verus! {

/// A blocking duplex byte stream whose handle can be duplicated.
///
/// Implementations are held to what blocking readers and writers promise: a
/// transfer moves at most as many bytes as the buffer holds. That promise is
/// taken on trust from each implementation. A transfer that was interrupted
/// before it moved anything is the implementation's to repeat.
pub trait Connection: Sized {
    /// What a failed transfer or a failed duplication reports.
    type Error;

    /// Reads into the front of `buf` and returns the number of bytes read.
    /// On a buffer that is not empty, zero means that the stream has ended.
    fn read(&mut self, buf: &mut [u8]) -> (r: Result<usize, Self::Error>)
        ensures
            final(buf)@.len() == old(buf)@.len(),
            r matches Ok(n) ==> n <= old(buf)@.len(),
    ;

    /// Writes bytes from the front of `buf` and returns how many were taken.
    fn write(&mut self, buf: &[u8]) -> (r: Result<usize, Self::Error>)
        ensures
            r matches Ok(n) ==> n <= buf@.len(),
    ;

    /// A second handle on the same stream.
    fn try_clone(&self) -> (r: Result<Self, Self::Error>)
    ;
}

/// Whether one call of the connection's `write` with the bytes `buf` can
/// give `r`.
pub open spec fn write_can_give<C: Connection>(buf: Seq<u8>, r: Result<usize, C::Error>) -> bool {
    exists|conn: &mut C, from: &[u8]|
        from@ == buf && #[trigger] call_ensures(C::write, (conn, from), r)
}

/// Whether one call of the connection's `read` with a buffer of `len` bytes
/// can give `r`.
pub open spec fn read_can_give<C: Connection>(len: nat, r: Result<usize, C::Error>) -> bool {
    exists|conn: &mut C, into: &mut [u8]|
        into@.len() == len && #[trigger] call_ensures(C::read, (conn, into), r)
}

/// Whether one call of `try_clone` on `stream` can give `r`.
pub open spec fn duplicate_can_give<C: Connection>(stream: C, r: Result<C, C::Error>) -> bool {
    call_ensures(C::try_clone, (&stream,), r)
}

/// Whether `wrote` is the beginning of `whole`, and not all of it.
pub open spec fn cut_short(wrote: Seq<u8>, whole: Seq<u8>) -> bool {
    wrote.len() < whole.len() && wrote == whole.take(wrote.len() as int)
}

/// The number of bytes that the reading of one frame asks for next, after
/// `got`: one byte while the length prefix is incomplete, then all of the
/// message that is still missing.
pub open spec fn next_read_len(got: Seq<u8>) -> nat {
    match decode_varint32(got) {
        VarintRead::Value(n) => (prefix_len(got) + n - got.len()) as nat,
        _ => 1,
    }
}

/// A connection together with the record, kept for specification only, of
/// the bytes that were read and written through it.
pub struct Recorded<C: Connection> {
    conn: C,
    received: Ghost<Seq<u8>>,
    sent: Ghost<Seq<u8>>,
}

impl<C: Connection> Recorded<C> {
    /// The bytes read through this handle so far, oldest first.
    pub closed spec fn received(&self) -> Seq<u8> {
        self.received@
    }

    /// The bytes written through this handle so far, oldest first.
    pub closed spec fn sent(&self) -> Seq<u8> {
        self.sent@
    }

    /// The connection that the record is kept for.
    pub closed spec fn inner(&self) -> C {
        self.conn
    }

    /// Begins a record for `conn`.
    pub fn new(conn: C) -> (recorded: Self)
        ensures
            recorded.inner() == conn,
            recorded.received() == Seq::<u8>::empty(),
            recorded.sent() == Seq::<u8>::empty(),
    {
        Recorded { conn, received: Ghost(Seq::empty()), sent: Ghost(Seq::empty()) }
    }

    /// Gives the connection back.
    pub fn into_inner(self) -> (conn: C)
        ensures
            conn == self.inner(),
    {
        self.conn
    }

    /// Reads into the front of `buf` and returns the number of bytes read,
    /// which are added to the record: one call of the connection's `read`
    /// with this buffer, whose outcome is handed on.
    pub fn read(&mut self, buf: &mut [u8]) -> (r: Result<usize, C::Error>)
        ensures
            exists|conn: &mut C, into: &mut [u8]|
                *conn == old(self).inner() && *final(conn) == final(self).inner() && into@ == old(
                    buf,
                )@ && final(into)@ == final(buf)@ && #[trigger] call_ensures(
                    C::read,
                    (conn, into),
                    r,
                ),
            final(buf)@.len() == old(buf)@.len(),
            final(self).sent() == old(self).sent(),
            match r {
                Ok(n) => n <= old(buf)@.len() && final(self).received() == old(self).received()
                    + final(buf)@.take(n as int),
                Err(_) => final(self).received() == old(self).received(),
            },
    {
        let r = self.conn.read(buf);
        match &r {
            Ok(n) => {
                self.received = Ghost(self.received@ + buf@.take(*n as int));
            },
            Err(_) => {},
        }
        r
    }

    /// Writes bytes from the front of `buf` and returns how many were taken,
    /// which are added to the record: one call of the connection's `write`
    /// with these bytes, whose outcome is handed on.
    pub fn write(&mut self, buf: &[u8]) -> (r: Result<usize, C::Error>)
        ensures
            exists|conn: &mut C|
                *conn == old(self).inner() && *final(conn) == final(self).inner()
                    && #[trigger] call_ensures(C::write, (conn, buf), r),
            final(self).received() == old(self).received(),
            match r {
                Ok(n) => n <= buf@.len() && final(self).sent() == old(self).sent() + buf@.take(
                    n as int,
                ),
                Err(_) => final(self).sent() == old(self).sent(),
            },
    {
        let r = self.conn.write(buf);
        match &r {
            Ok(n) => {
                self.sent = Ghost(self.sent@ + buf@.take(*n as int));
            },
            Err(_) => {},
        }
        r
    }
}

/// Why an exchange with the server failed.
#[derive(Debug)]
pub enum RequestError<E> {
    /// The connection reported a failure while duplicating, writing or reading.
    Io(E),
    /// The connection took no bytes of a message that was not yet fully written.
    WriteZero,
    /// The stream ended inside a length prefix or inside a message.
    UnexpectedEof,
    /// The length prefix is not a variable-length integer.
    MalformedLength,
    /// A message, or the length announced for one, exceeds `MAX_MESSAGE_LEN`.
    Oversized,
    /// The message arrived whole but is not a valid response.
    Decode,
}

impl<E> RequestError<E> {
    /// Whether the failure lies in the transport or the framing, as opposed
    /// to the content of a message that arrived whole.
    pub open spec fn is_transport(self) -> bool {
        !(self is Decode)
    }

    /// Whether the failure lies in the transport or the framing.
    pub fn is_io(&self) -> (r: bool)
        ensures
            r == self.is_transport(),
    {
        match self {
            RequestError::Decode => false,
            _ => true,
        }
    }
}

/// Writes all of `bytes`, in as many transfers as the connection needs.
///
/// It ends with the first transfer that fails, whose error it hands on, or
/// that takes nothing, and with nothing left to write otherwise.
pub fn write_all<C: Connection>(conn: &mut Recorded<C>, bytes: &[u8]) -> (r: Result<
    (),
    RequestError<C::Error>,
>)
    ensures
        final(conn).received() == old(conn).received(),
        old(conn).sent().is_prefix_of(final(conn).sent()),
        ({
            let wrote = final(conn).sent().skip(old(conn).sent().len() as int);
            let left = bytes@.skip(wrote.len() as int);
            match r {
                Ok(()) => wrote == bytes@,
                Err(RequestError::Io(e)) => cut_short(wrote, bytes@) && write_can_give::<C>(
                    left,
                    Err(e),
                ),
                Err(RequestError::WriteZero) => cut_short(wrote, bytes@) && write_can_give::<C>(
                    left,
                    Ok(0),
                ),
                Err(_) => false,
            }
        }),
{
    let ghost start = conn.sent();
    let mut written: usize = 0;
    while written < bytes.len()
        invariant
            written <= bytes@.len(),
            start == old(conn).sent(),
            conn.received() == old(conn).received(),
            conn.sent() == start + bytes@.take(written as int),
        decreases bytes@.len() - written,
    {
        let rest = slice_subrange(bytes, written, bytes.len());
        let outcome = conn.write(rest);
        proof {
            assert(write_can_give::<C>(rest@, outcome));
            assert(rest@ =~= bytes@.skip(written as int));
            assert((start + bytes@.take(written as int)).skip(start.len() as int) =~= bytes@.take(
                written as int,
            ));
        }
        match outcome {
            Err(e) => {
                return Err(RequestError::Io(e));
            },
            Ok(n) => {
                if n == 0 {
                    return Err(RequestError::WriteZero);
                }
                assert(bytes@.take(written as int) + rest@.take(n as int) =~= bytes@.take(
                    written + n,
                ));
                written = written + n;
            },
        }
    }
    proof {
        assert(bytes@.take(written as int) =~= bytes@);
        assert((start + bytes@).skip(start.len() as int) =~= bytes@);
    }
    Ok(())
}

/// Frames `payload` and writes the frame in full. A message that is too long
/// is refused before anything is written; a transfer that fails or takes
/// nothing ends the writing, as in `write_all`.
pub fn send_message<C: Connection>(conn: &mut Recorded<C>, payload: &[u8]) -> (r: Result<
    (),
    RequestError<C::Error>,
>)
    ensures
        final(conn).received() == old(conn).received(),
        old(conn).sent().is_prefix_of(final(conn).sent()),
        ({
            let wrote = final(conn).sent().skip(old(conn).sent().len() as int);
            let whole = frame(payload@);
            let left = whole.skip(wrote.len() as int);
            let fits = payload@.len() <= MAX_MESSAGE_LEN;
            match r {
                Ok(()) => fits && wrote == whole,
                Err(RequestError::Oversized) => !fits && wrote.len() == 0,
                Err(RequestError::Io(e)) => fits && cut_short(wrote, whole) && write_can_give::<C>(
                    left,
                    Err(e),
                ),
                Err(RequestError::WriteZero) => fits && cut_short(wrote, whole)
                    && write_can_give::<C>(left, Ok(0)),
                Err(_) => false,
            }
        }),
{
    match encode_frame(payload) {
        Err(FrameError::Oversized) => {
            assert(conn.sent().skip(conn.sent().len() as int) =~= Seq::<u8>::empty());
            Err(RequestError::Oversized)
        },
        Ok(bytes) => write_all(conn, bytes.as_slice()),
    }
}

/// Reads one framed message: the length prefix byte by byte, then exactly as
/// many bytes as it announces, and nothing beyond them.
///
/// It ends with the first read that fails, whose error it hands on, or that
/// reports the end of the stream.
pub fn receive_message<C: Connection>(conn: &mut Recorded<C>) -> (r: Result<
    Vec<u8>,
    RequestError<C::Error>,
>)
    ensures
        final(conn).sent() == old(conn).sent(),
        old(conn).received().is_prefix_of(final(conn).received()),
        ({
            let got = final(conn).received().skip(old(conn).received().len() as int);
            match r {
                Ok(payload) => read_frame(got) == (FrameRead::Complete {
                    payload: payload@,
                    consumed: got.len(),
                }),
                Err(RequestError::Io(e)) => read_frame(got) == FrameRead::Truncated
                    && read_can_give::<C>(next_read_len(got), Err(e)),
                Err(RequestError::UnexpectedEof) => read_frame(got) == FrameRead::Truncated
                    && next_read_len(got) > 0 && read_can_give::<C>(next_read_len(got), Ok(0)),
                Err(RequestError::Oversized) => read_frame(got) == FrameRead::Oversized
                    && got.len() == prefix_len(got),
                Err(RequestError::MalformedLength) => read_frame(got) == FrameRead::Malformed,
                Err(_) => false,
            }
        }),
{
    let ghost start = conn.received();
    let mut head: Vec<u8> = Vec::new();
    let mut one: Vec<u8> = vec![0u8; 1];
    let mut announced: u32 = 0;
    loop
        invariant_except_break
            decode_varint32(head@) is Incomplete,
        invariant
            one@.len() == 1,
            start == old(conn).received(),
            conn.sent() == old(conn).sent(),
            conn.received() == start + head@,
        ensures
            head@.len() >= 1,
            decode_varint32(head@) == VarintRead::Value(announced),
            decode_varint32(head@.drop_last()) is Incomplete,
        decreases 10 - head@.len(),
    {
        proof {
            lemma_scan_incomplete(head@, 10);
            assert((start + head@).skip(start.len() as int) =~= head@);
        }
        let outcome = conn.read(one.as_mut_slice());
        assert(read_can_give::<C>(1, outcome));
        match outcome {
            Err(e) => {
                return Err(RequestError::Io(e));
            },
            Ok(n) => {
                if n == 0 {
                    return Err(RequestError::UnexpectedEof);
                }
                let byte = one[0];
                let ghost before = head@;
                assert(one@.take(n as int) =~= seq![byte]);
                head.push(byte);
                assert(head@.drop_last() =~= before);
                assert(conn.received() =~= start + head@);
                assert((start + head@).skip(start.len() as int) =~= head@);
                match read_varint32(head.as_slice()) {
                    VarintRead::Incomplete => {
                        proof {
                            lemma_scan_incomplete(head@, 10);
                        }
                    },
                    VarintRead::Malformed => {
                        return Err(RequestError::MalformedLength);
                    },
                    VarintRead::Value(n) => {
                        announced = n;
                        break ;
                    },
                }
            },
        }
    }
    proof {
        lemma_read_frame_parts(head@, Seq::empty(), announced);
        assert(head@ + Seq::<u8>::empty() =~= head@);
        assert((start + head@).skip(start.len() as int) =~= head@);
    }
    if announced > MAX_MESSAGE_LEN {
        return Err(RequestError::Oversized);
    }
    let want = announced as usize;
    let mut buf: Vec<u8> = vec![0u8; want];
    let mut filled: usize = 0;
    while filled < want
        invariant
            filled <= want == buf@.len(),
            want == announced <= MAX_MESSAGE_LEN,
            head@.len() >= 1,
            decode_varint32(head@) == VarintRead::Value(announced),
            decode_varint32(head@.drop_last()) is Incomplete,
            start == old(conn).received(),
            conn.sent() == old(conn).sent(),
            conn.received() == start + head@ + buf@.take(filled as int),
        decreases want - filled,
    {
        let ghost part = buf@.take(filled as int);
        proof {
            lemma_read_frame_parts(head@, part, announced);
            assert((start + head@ + part).skip(start.len() as int) =~= head@ + part);
        }
        let (_, rest) = buf.as_mut_slice().split_at_mut(filled);
        let ghost room = rest@.len();
        let outcome = conn.read(rest);
        assert(read_can_give::<C>(room, outcome));
        assert(next_read_len(head@ + part) == room);
        match outcome {
            Err(e) => {
                return Err(RequestError::Io(e));
            },
            Ok(n) => {
                if n == 0 {
                    return Err(RequestError::UnexpectedEof);
                }
                assert(buf@.take(filled + n) =~= part + rest@.take(n as int));
                assert(start + head@ + part + rest@.take(n as int) =~= start + head@ + (part
                    + rest@.take(n as int)));
                filled = filled + n;
            },
        }
    }
    proof {
        assert(buf@.take(filled as int) =~= buf@);
        lemma_read_frame_parts(head@, buf@, announced);
        assert((start + head@ + buf@).skip(start.len() as int) =~= head@ + buf@);
    }
    Ok(buf)
}

} // verus!
