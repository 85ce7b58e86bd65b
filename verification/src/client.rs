//! The client side: one request/response exchange over a connection to the
//! server, and the establishing of that connection with bounded retry.

use crate::connection::{
    cut_short, duplicate_can_give, next_read_len, read_can_give, receive_message, write_all,
    write_can_give, Connection, Recorded, RequestError,
};
use crate::frame::{
    encode_frame, frame, lemma_varint_len, prefix_len, read_frame, FrameRead, MAX_MESSAGE_LEN,
};
use crate::dial::{DialEvent, Dialer};
use crate::ip::{NetAddr, NetAddrView};
use crate::net::{SocketAddr, SocketAddrView};
use vstd::prelude::*;

verus! {

/// Whether `got` is exactly one frame and `decode` can give `outcome` for
/// the message in it.
pub open spec fn answered<T, D: FnOnce(Vec<u8>) -> Option<T>>(
    decode: D,
    got: Seq<u8>,
    outcome: Option<T>,
) -> bool {
    exists|payload: Vec<u8>|
        read_frame(got) == (FrameRead::Complete { payload: payload@, consumed: got.len() })
            && #[trigger] decode.ensures((payload,), outcome)
}

/// Whether `try_clone` on `stream` can succeed.
pub open spec fn duplicates<C: Connection>(stream: C) -> bool {
    exists|made: Result<C, C::Error>| made is Ok && #[trigger] duplicate_can_give(stream, made)
}

/// What holds of one exchange on duplicates of `stream`, which wrote `wrote`
/// and read `got`, and ended in `r`.
///
/// A request that does not fit ends it before anything is done. Otherwise
/// every ending but a failure says how far the exchange came: the request
/// was written whole, and what was read is one frame whose message `decode`
/// took or refused, or a length prefix that is malformed or announces too
/// much, after which nothing was read. A failure names the call that
/// failed: a duplication or a transfer that can give this error, a write
/// that can take nothing of what was left, or a read that can report the end
/// of the stream where bytes were still asked for.
pub open spec fn exchanged<C: Connection, T, D: FnOnce(Vec<u8>) -> Option<T>>(
    stream: C,
    request: Seq<u8>,
    wrote: Seq<u8>,
    got: Seq<u8>,
    decode: D,
    r: Result<T, RequestError<C::Error>>,
) -> bool {
    let whole = frame(request);
    let left = whole.skip(wrote.len() as int);
    let fits = request.len() <= MAX_MESSAGE_LEN;
    match r {
        Ok(response) => fits && duplicates(stream) && wrote == whole && answered(
            decode,
            got,
            Some(response),
        ),
        Err(RequestError::Decode) => fits && duplicates(stream) && wrote == whole && answered(
            decode,
            got,
            None,
        ),
        Err(RequestError::Oversized) => if fits {
            duplicates(stream) && wrote == whole && read_frame(got) == FrameRead::Oversized
                && got.len() == prefix_len(got)
        } else {
            wrote.len() == 0 && got.len() == 0
        },
        Err(RequestError::MalformedLength) => fits && duplicates(stream) && wrote == whole
            && read_frame(got) == FrameRead::Malformed,
        Err(RequestError::UnexpectedEof) => fits && duplicates(stream) && wrote == whole
            && read_frame(got) == FrameRead::Truncated && next_read_len(got) > 0
            && read_can_give::<C>(next_read_len(got), Ok(0)),
        Err(RequestError::WriteZero) => fits && duplicates(stream) && cut_short(wrote, whole)
            && got.len() == 0 && write_can_give::<C>(left, Ok(0)),
        Err(RequestError::Io(e)) => fits && if wrote == whole {
            duplicates(stream) && read_frame(got) == FrameRead::Truncated && (if got.len() == 0 {
                duplicate_can_give(stream, Err(e)) || read_can_give::<C>(
                    next_read_len(got),
                    Err(e),
                )
            } else {
                read_can_give::<C>(next_read_len(got), Err(e))
            })
        } else {
            cut_short(wrote, whole) && got.len() == 0 && (if wrote.len() == 0 {
                duplicate_can_give(stream, Err(e)) || write_can_give::<C>(left, Err(e))
            } else {
                duplicates(stream) && write_can_give::<C>(left, Err(e))
            })
        },
    }
}

/// Where the handle can be duplicated and no write fails or takes nothing,
/// an exchange writes the request as one frame: its length, then its bytes,
/// and nothing else.
pub proof fn lemma_exchange_writes_frame<C: Connection, T, D: FnOnce(Vec<u8>) -> Option<T>>(
    stream: C,
    request: Seq<u8>,
    wrote: Seq<u8>,
    got: Seq<u8>,
    decode: D,
    r: Result<T, RequestError<C::Error>>,
)
    requires
        exchanged(stream, request, wrote, got, decode, r),
        request.len() <= MAX_MESSAGE_LEN,
        forall|made: Result<C, C::Error>|
            made is Err ==> !#[trigger] duplicate_can_give(stream, made),
        forall|buf: Seq<u8>, taken: Result<usize, C::Error>|
            buf.len() > 0 && (taken is Err || taken == Ok::<usize, C::Error>(0))
                ==> !#[trigger] write_can_give::<C>(buf, taken),
    ensures
        wrote == frame(request),
{
    let whole = frame(request);
    let left = whole.skip(wrote.len() as int);
    if wrote != whole {
        match r {
            Err(RequestError::WriteZero) => {
                assert(!write_can_give::<C>(left, Ok(0)));
            },
            Err(RequestError::Io(e)) => {
                let made: Result<C, C::Error> = Err(e);
                let taken: Result<usize, C::Error> = Err(e);
                assert(!duplicate_can_give(stream, made));
                assert(!write_can_give::<C>(left, taken));
            },
            _ => {},
        }
    }
}

/// An exchange that read one frame whole ends in what `decode` makes of its
/// message: the response, or the error `Decode` and no other, and the
/// request was written whole.
pub proof fn lemma_exchange_of_whole_frame<C: Connection, T, D: FnOnce(Vec<u8>) -> Option<T>>(
    stream: C,
    request: Seq<u8>,
    wrote: Seq<u8>,
    got: Seq<u8>,
    decode: D,
    r: Result<T, RequestError<C::Error>>,
)
    requires
        exchanged(stream, request, wrote, got, decode, r),
        read_frame(got) is Complete,
    ensures
        wrote == frame(request),
        r matches Ok(response) ==> answered(decode, got, Some(response)),
        r is Err ==> (r matches Err(RequestError::Decode)) && answered(decode, got, None),
{
    assert(read_frame(Seq::<u8>::empty()) == FrameRead::Truncated);
    if got.len() == 0 {
        assert(got =~= Seq::<u8>::empty());
    }
}

/// An exchange that read less than one frame, or a frame that is not
/// accepted, fails, and not with the error `Decode`: what did not arrive
/// whole is never decoded.
pub proof fn lemma_exchange_of_broken_frame<C: Connection, T, D: FnOnce(Vec<u8>) -> Option<T>>(
    stream: C,
    request: Seq<u8>,
    wrote: Seq<u8>,
    got: Seq<u8>,
    decode: D,
    r: Result<T, RequestError<C::Error>>,
)
    requires
        exchanged(stream, request, wrote, got, decode, r),
        !(read_frame(got) is Complete),
    ensures
        r is Err,
        r->Err_0.is_transport(),
{
}

/// A connection to a cache server.
///
/// Beside the handle it keeps, for specification only, the bytes that its
/// requests have written and read through duplicates of the handle.
pub struct ServerConnection<C: Connection> {
    /// The handle connected to the server. It is never replaced.
    stream: C,
    sent: Ghost<Seq<u8>>,
    received: Ghost<Seq<u8>>,
}

impl<C: Connection> ServerConnection<C> {
    /// The handle that the connection owns.
    pub closed spec fn stream(&self) -> C {
        self.stream
    }

    /// The bytes that requests have written so far, oldest first.
    pub closed spec fn sent(&self) -> Seq<u8> {
        self.sent@
    }

    /// The bytes that requests have read so far, oldest first.
    pub closed spec fn received(&self) -> Seq<u8> {
        self.received@
    }

    /// Wraps a connected handle.
    pub fn new(stream: C) -> (conn: Self)
        ensures
            conn.stream() == stream,
            conn.sent() == Seq::<u8>::empty(),
            conn.received() == Seq::<u8>::empty(),
    {
        ServerConnection { stream, sent: Ghost(Seq::empty()), received: Ghost(Seq::empty()) }
    }

    /// Gives the handle back.
    pub fn into_inner(self) -> (stream: C)
        ensures
            stream == self.stream(),
    {
        self.stream
    }

    /// Sends `request` to the server, reads one response and decodes it.
    ///
    /// The request is framed and written in full on a first duplicate of the
    /// handle; then one frame is read on a second duplicate, and `decode` is
    /// applied to the message in it. A request that is too long fails before
    /// anything is done. The exchange ends with the first duplication or
    /// transfer that fails, whose error it hands on, with the first write
    /// that takes nothing, or with the first read that reports the end of
    /// the stream; a length prefix that is malformed or announces too much
    /// ends it before anything more is read. The error is `Decode` exactly
    /// when one frame arrived whole and `decode` refused its message.
    pub fn request<T, D>(&mut self, request: &[u8], decode: D) -> (r: Result<
        T,
        RequestError<C::Error>,
    >) where D: FnOnce(Vec<u8>) -> Option<T>
        requires
            forall|payload: Vec<u8>|
                payload@.len() <= MAX_MESSAGE_LEN ==> #[trigger] decode.requires((payload,)),
        ensures
            final(self).stream() == old(self).stream(),
            old(self).sent().is_prefix_of(final(self).sent()),
            old(self).received().is_prefix_of(final(self).received()),
            request@.len() > MAX_MESSAGE_LEN ==> r matches Err(RequestError::Oversized),
            exchanged(
                old(self).stream(),
                request@,
                final(self).sent().skip(old(self).sent().len() as int),
                final(self).received().skip(old(self).received().len() as int),
                decode,
                r,
            ),
    {
        let ghost sent_before = self.sent@;
        let ghost got_before = self.received@;
        let ghost stream = self.stream;
        proof {
            assert(sent_before.skip(sent_before.len() as int) =~= Seq::<u8>::empty());
            assert(got_before.skip(got_before.len() as int) =~= Seq::<u8>::empty());
        }
        let bytes = match encode_frame(request) {
            Ok(bytes) => bytes,
            Err(_) => {
                return Err(RequestError::Oversized);
            },
        };
        proof {
            lemma_varint_len(request@.len());
            assert(read_frame(Seq::<u8>::empty()) == FrameRead::Truncated);
            assert(bytes@.take(0) =~= Seq::<u8>::empty());
            assert(bytes@.skip(0) =~= bytes@);
        }
        let first = self.stream.try_clone();
        assert(duplicate_can_give(stream, first));
        let mut writer = match first {
            Ok(writer) => Recorded::new(writer),
            Err(e) => {
                return Err(RequestError::Io(e));
            },
        };
        assert(duplicates(stream));
        let written = write_all(&mut writer, bytes.as_slice());
        self.sent = Ghost(sent_before + writer.sent());
        proof {
            assert((sent_before + writer.sent()).skip(sent_before.len() as int) =~= writer.sent());
            assert(writer.sent().skip(0) =~= writer.sent());
        }
        match written {
            Ok(()) => {},
            Err(e) => {
                return Err(e);
            },
        }
        let second = self.stream.try_clone();
        assert(duplicate_can_give(stream, second));
        let mut reader = match second {
            Ok(reader) => Recorded::new(reader),
            Err(e) => {
                return Err(RequestError::Io(e));
            },
        };
        let received = receive_message(&mut reader);
        self.received = Ghost(got_before + reader.received());
        proof {
            assert((got_before + reader.received()).skip(got_before.len() as int)
                =~= reader.received());
            assert(reader.received().skip(0) =~= reader.received());
        }
        let payload = match received {
            Ok(payload) => payload,
            Err(e) => {
                return Err(e);
            },
        };
        let ghost message = payload;
        let decoded = decode(payload);
        assert(answered(decode, reader.received(), decoded)) by {
            assert(decode.ensures((message,), decoded));
        }
        match decoded {
            Some(response) => Ok(response),
            None => Err(RequestError::Decode),
        }
    }
}

/// Number of attempts to connect before giving up.
pub const MAX_CONNECT_ATTEMPTS: u32 = 10;

/// Time to wait between two attempts, in milliseconds.
pub const CONNECT_RETRY_DELAY: u32 = 1;

/// Why no connection to the server was established.
#[derive(Debug, Clone, Copy, PartialEq, Eq, Structural)]
pub enum ConnectError {
    /// Every attempt failed.
    TimedOut,
}

impl ConnectError {
    /// What to tell the user.
    pub fn message(&self) -> (text: &'static str)
        ensures
            text@ == "Connection to server timed out"@,
    {
        "Connection to server timed out"
    }
}

/// What to do after an attempt to connect.
#[derive(Debug, Clone, Copy, PartialEq, Eq, Structural)]
pub enum RetryAction {
    /// The attempt succeeded: use the connection.
    Finish,
    /// The attempt failed: wait this long, then try again.
    RetryAfter(u32),
    /// The attempt failed and was the last one: give up.
    TimeOut,
}

/// How far the establishing of a connection has come.
#[derive(Debug, Clone, Copy, PartialEq, Eq, Structural)]
pub struct RetryState {
    /// Attempts that have failed so far.
    pub failed: u32,
}

/// The state and the action that follow an attempt, after `failed` failures:
/// success ends the retrying at once, a failure is followed by a wait and
/// another attempt unless it was the last one allowed. No more failures are
/// counted than attempts are allowed.
pub open spec fn retry_step(failed: nat, succeeded: bool) -> (nat, RetryAction) {
    if succeeded {
        (failed, RetryAction::Finish)
    } else if failed + 1 < MAX_CONNECT_ATTEMPTS {
        (failed + 1, RetryAction::RetryAfter(CONNECT_RETRY_DELAY))
    } else {
        (MAX_CONNECT_ATTEMPTS as nat, RetryAction::TimeOut)
    }
}

impl RetryState {
    /// The state before the first attempt.
    pub fn new() -> (state: RetryState)
        ensures
            state.failed == 0,
    {
        RetryState { failed: 0 }
    }

    /// Records the outcome of an attempt and says what to do next.
    pub fn on_attempt(&mut self, succeeded: bool) -> (action: RetryAction)
        ensures
            (final(self).failed as nat, action) == retry_step(old(self).failed as nat, succeeded),
    {
        if succeeded {
            RetryAction::Finish
        } else if self.failed < MAX_CONNECT_ATTEMPTS - 1 {
            self.failed = self.failed + 1;
            RetryAction::RetryAfter(CONNECT_RETRY_DELAY)
        } else {
            self.failed = MAX_CONNECT_ATTEMPTS;
            RetryAction::TimeOut
        }
    }
}

/// How the establishing of a connection ended.
pub struct RetryRun {
    /// Whether an attempt succeeded.
    pub connected: bool,
    /// Attempts made.
    pub attempts: nat,
    /// Time spent waiting between attempts.
    pub waited: nat,
}

/// Plays the outcomes of successive attempts, after `failed` failures, until
/// one of them ends the retrying. There is no end where the outcomes run out
/// first.
pub open spec fn retry_run(outcomes: Seq<bool>, failed: nat) -> Option<RetryRun>
    decreases outcomes.len(),
{
    if outcomes.len() == 0 {
        None
    } else {
        match retry_step(failed, outcomes[0]) {
            (_, RetryAction::Finish) => Some(RetryRun { connected: true, attempts: 1, waited: 0 }),
            (_, RetryAction::TimeOut) => Some(
                RetryRun { connected: false, attempts: 1, waited: 0 },
            ),
            (next, RetryAction::RetryAfter(delay)) => match retry_run(outcomes.skip(1), next) {
                Some(run) => Some(
                    RetryRun {
                        connected: run.connected,
                        attempts: run.attempts + 1,
                        waited: run.waited + delay as nat,
                    },
                ),
                None => None,
            },
        }
    }
}

/// After `failed` failures, a server that refuses `n` more attempts and then
/// accepts is reached with attempt `n + 1`, after `n` waits, as long as the
/// attempts allowed are not used up first.
pub(crate) proof fn lemma_retry_reaches(outcomes: Seq<bool>, failed: nat, n: nat)
    requires
        failed + n < MAX_CONNECT_ATTEMPTS,
        n < outcomes.len(),
        forall|i: int| 0 <= i < n ==> !outcomes[i],
        outcomes[n as int],
    ensures
        retry_run(outcomes, failed) == Some(
            RetryRun { connected: true, attempts: n + 1, waited: n * CONNECT_RETRY_DELAY as nat },
        ),
    decreases n,
{
    if n > 0 {
        let rest = outcomes.skip(1);
        assert forall|i: int| 0 <= i < n - 1 implies !rest[i] by {
            assert(rest[i] == outcomes[i + 1]);
        }
        assert(rest[n - 1] == outcomes[n as int]);
        lemma_retry_reaches(rest, failed + 1, (n - 1) as nat);
    }
}

/// After `failed` failures, a server that refuses every further attempt is
/// given up on with the last attempt allowed, no wait following it.
pub(crate) proof fn lemma_retry_gives_up(outcomes: Seq<bool>, failed: nat)
    requires
        failed < MAX_CONNECT_ATTEMPTS,
        outcomes.len() >= MAX_CONNECT_ATTEMPTS - failed,
        forall|i: int| 0 <= i < MAX_CONNECT_ATTEMPTS - failed ==> !outcomes[i],
    ensures
        retry_run(outcomes, failed) == Some(
            RetryRun {
                connected: false,
                attempts: (MAX_CONNECT_ATTEMPTS - failed) as nat,
                waited: ((MAX_CONNECT_ATTEMPTS - failed - 1) * CONNECT_RETRY_DELAY) as nat,
            },
        ),
    decreases MAX_CONNECT_ATTEMPTS - failed,
{
    assert(!outcomes[0]);
    if failed + 1 < MAX_CONNECT_ATTEMPTS {
        let rest = outcomes.skip(1);
        assert forall|i: int| 0 <= i < MAX_CONNECT_ATTEMPTS - (failed + 1) implies !rest[i] by {
            assert(rest[i] == outcomes[i + 1]);
        }
        lemma_retry_gives_up(rest, failed + 1);
    }
}

/// A server that begins to accept after `n` refusals, `n` below the number of
/// attempts allowed, is reached with attempt `n + 1`; one that refuses every
/// attempt is given up on after exactly the attempts allowed, and after one
/// wait fewer than attempts.
pub proof fn lemma_connect_with_retry(outcomes: Seq<bool>, n: nat)
    requires
        n <= outcomes.len(),
        forall|i: int| 0 <= i < n ==> !outcomes[i],
    ensures
        n < MAX_CONNECT_ATTEMPTS && n < outcomes.len() && outcomes[n as int] ==> retry_run(
            outcomes,
            0,
        ) == Some(
            RetryRun { connected: true, attempts: n + 1, waited: n * CONNECT_RETRY_DELAY as nat },
        ),
        n >= MAX_CONNECT_ATTEMPTS ==> retry_run(outcomes, 0) == Some(
            RetryRun {
                connected: false,
                attempts: MAX_CONNECT_ATTEMPTS as nat,
                waited: ((MAX_CONNECT_ATTEMPTS - 1) * CONNECT_RETRY_DELAY) as nat,
            },
        ),
{
    if n < MAX_CONNECT_ATTEMPTS && n < outcomes.len() && outcomes[n as int] {
        lemma_retry_reaches(outcomes, 0, n);
    }
    if n >= MAX_CONNECT_ATTEMPTS {
        lemma_retry_gives_up(outcomes, 0);
    }
}

/// The address of a server on this machine.
pub open spec fn local_server(port: u16) -> SocketAddrView {
    SocketAddrView::Net(NetAddrView::V4 { ip: seq![127u8, 0u8, 0u8, 1u8], port })
}

/// Whether one call of `connect` with the address of the server on `port`
/// of this machine can give `made`.
pub open spec fn connects_to<C: Connection, F: Fn(&SocketAddr) -> Result<C, C::Error>>(
    connect: &F,
    port: u16,
    made: Result<C, C::Error>,
) -> bool {
    exists|addr: &SocketAddr|
        addr@ == local_server(port) && #[trigger] connect.ensures((addr,), made)
}

/// Whether one call of `connect` with the address of the server on `port`
/// of this machine can fail.
pub open spec fn refuses<C: Connection, F: Fn(&SocketAddr) -> Result<C, C::Error>>(
    connect: &F,
    port: u16,
) -> bool {
    exists|made: Result<C, C::Error>| made is Err && #[trigger] connects_to(connect, port, made)
}

/// The address of a server that listens on `port` of this machine.
pub fn local_server_addr(port: u16) -> (addr: SocketAddr)
    ensures
        addr@ == local_server(port),
{
    let ip: [u8; 4] = [127, 0, 0, 1];
    assert(ip@ =~= seq![127u8, 0u8, 0u8, 1u8]);
    SocketAddr::Net(NetAddr::V4 { ip, port })
}

/// Connects to the server that listens on `port` of this machine: one call
/// of `connect` with that address, whose connection or error is handed on.
pub fn connect_to_server<C, F>(port: u16, connect: &F) -> (r: Result<
    ServerConnection<C>,
    C::Error,
>) where C: Connection, F: Fn(&SocketAddr) -> Result<C, C::Error>
    requires
        forall|addr: &SocketAddr|
            addr@ == local_server(port) ==> #[trigger] connect.requires((addr,)),
    ensures
        r is Ok ==> connects_to(connect, port, Ok(r->Ok_0.stream())),
        r is Err ==> connects_to(connect, port, Err(r->Err_0)),
{
    let addr = local_server_addr(port);
    let made = connect(&addr);
    assert(connects_to(connect, port, made)) by {
        assert(connect.ensures((&addr,), made));
    }
    match made {
        Ok(stream) => Ok(ServerConnection::new(stream)),
        Err(e) => Err(e),
    }
}

/// What is on record of `n` attempts that failed, each followed by a wait
/// before the next attempt.
pub open spec fn refusals(n: nat) -> Seq<DialEvent>
    decreases n,
{
    if n == 0 {
        Seq::empty()
    } else {
        refusals((n - 1) as nat).push(DialEvent::Attempt { succeeded: false }).push(
            DialEvent::Wait { delay: CONNECT_RETRY_DELAY },
        )
    }
}

/// Connects to the server that listens on `port` of this machine, trying
/// again while it refuses: up to `MAX_CONNECT_ATTEMPTS` attempts, one after
/// the other, with a wait of `CONNECT_RETRY_DELAY` between two of them. The
/// first connection made is returned; the errors of the attempts are not.
///
/// On record are then the attempts that failed, each followed by a wait, and
/// one attempt more: the one that succeeded, or the last one allowed.
pub fn connect_with_retry<C, F, W>(port: u16, dialer: &mut Dialer<F, W>) -> (r: Result<
    ServerConnection<C>,
    ConnectError,
>) where C: Connection, F: Fn(&SocketAddr) -> Result<C, C::Error>, W: Fn(u32)
    requires
        forall|addr: &SocketAddr|
            addr@ == local_server(port) ==> #[trigger] old(dialer).connector().requires((addr,)),
        old(dialer).waiter().requires((CONNECT_RETRY_DELAY,)),
    ensures
        final(dialer).connector() == old(dialer).connector(),
        final(dialer).waiter() == old(dialer).waiter(),
        old(dialer).log().is_prefix_of(final(dialer).log()),
        r is Ok ==> connects_to(old(dialer).connector(), port, Ok(r->Ok_0.stream())),
        r is Ok ==> exists|n: nat|
            n < MAX_CONNECT_ATTEMPTS && final(dialer).log().skip(old(dialer).log().len() as int)
                == (#[trigger] refusals(n)).push(DialEvent::Attempt { succeeded: true }),
        r is Err ==> r->Err_0 == ConnectError::TimedOut && refuses(
            old(dialer).connector(),
            port,
        ) && final(dialer).log().skip(old(dialer).log().len() as int) == refusals(
            (MAX_CONNECT_ATTEMPTS - 1) as nat,
        ).push(DialEvent::Attempt { succeeded: false }),
{
    let ghost start = dialer.log();
    let mut state = RetryState::new();
    loop
        invariant
            state.failed < MAX_CONNECT_ATTEMPTS,
            start == old(dialer).log(),
            dialer.connector() == old(dialer).connector(),
            dialer.waiter() == old(dialer).waiter(),
            dialer.log() == start + refusals(state.failed as nat),
            forall|addr: &SocketAddr|
                addr@ == local_server(port) ==> #[trigger] dialer.connector().requires((addr,)),
            dialer.waiter().requires((CONNECT_RETRY_DELAY,)),
        decreases MAX_CONNECT_ATTEMPTS - state.failed,
    {
        let ghost failed = state.failed as nat;
        let attempt = dialer.attempt(port);
        proof {
            if attempt is Err {
                let made: Result<C, C::Error> = Err(attempt->Err_0);
                assert(connects_to(old(dialer).connector(), port, made));
            }
            let last = DialEvent::Attempt { succeeded: attempt is Ok };
            assert(dialer.log() =~= start + refusals(failed).push(last));
            assert((start + refusals(failed).push(last)).skip(start.len() as int) =~= refusals(
                failed,
            ).push(last));
        }
        match attempt {
            Ok(conn) => {
                let _ = state.on_attempt(true);
                return Ok(conn);
            },
            Err(_) => match state.on_attempt(false) {
                RetryAction::RetryAfter(delay) => {
                    dialer.pause(delay);
                    assert(dialer.log() =~= start + refusals(failed + 1));
                },
                _ => {
                    return Err(ConnectError::TimedOut);
                },
            },
        }
    }
}

} // verus!
