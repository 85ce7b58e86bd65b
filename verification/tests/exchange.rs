use cache_transport::client::ServerConnection;
use cache_transport::connection::{
    receive_message, send_message, write_all, Connection, Recorded, RequestError,
};
use cache_transport::frame::{encode_frame, FrameError, MAX_MESSAGE_LEN};
use protobuf::well_known_types::StringValue;
use protobuf::Message;
use std::cell::RefCell;
use std::collections::VecDeque;
use std::rc::Rc;

/// One direction of an in-process stream.
#[derive(Default)]
struct Lane {
    bytes: VecDeque<u8>,
}

/// One end of an in-process duplex stream. Duplicates share both lanes.
struct Pipe {
    incoming: Rc<RefCell<Lane>>,
    outgoing: Rc<RefCell<Lane>>,
    /// Most bytes moved by one transfer.
    step: usize,
    /// Transfers left before reads fail, if reads are to fail.
    reads_before_failure: Rc<RefCell<Option<usize>>>,
    /// Whether writes fail.
    writes_fail: bool,
    /// Whether writes take nothing.
    writes_stall: bool,
    /// Duplications left before duplicating fails, if it is to fail.
    clones_before_failure: Rc<RefCell<Option<usize>>>,
    /// Duplications made.
    clones: Rc<RefCell<usize>>,
}

fn pipe_with(incoming: Rc<RefCell<Lane>>, outgoing: Rc<RefCell<Lane>>, step: usize) -> Pipe {
    Pipe {
        incoming,
        outgoing,
        step,
        reads_before_failure: Rc::new(RefCell::new(None)),
        writes_fail: false,
        writes_stall: false,
        clones_before_failure: Rc::new(RefCell::new(None)),
        clones: Rc::new(RefCell::new(0)),
    }
}

fn pair(step: usize) -> (Pipe, Pipe) {
    let there = Rc::new(RefCell::new(Lane::default()));
    let back = Rc::new(RefCell::new(Lane::default()));
    (pipe_with(back.clone(), there.clone(), step), pipe_with(there, back, step))
}

impl Pipe {
    fn feed(&self, bytes: &[u8]) {
        self.incoming.borrow_mut().bytes.extend(bytes.iter().copied());
    }

    fn written(&self) -> Vec<u8> {
        self.outgoing.borrow().bytes.iter().copied().collect()
    }

    fn unread(&self) -> usize {
        self.incoming.borrow().bytes.len()
    }

    /// Another handle on the same lanes, not counted as a duplication.
    fn share(&self) -> Pipe {
        Pipe {
            incoming: self.incoming.clone(),
            outgoing: self.outgoing.clone(),
            step: self.step,
            reads_before_failure: self.reads_before_failure.clone(),
            writes_fail: self.writes_fail,
            writes_stall: self.writes_stall,
            clones_before_failure: self.clones_before_failure.clone(),
            clones: self.clones.clone(),
        }
    }

    fn recorded(&self) -> Recorded<Pipe> {
        Recorded::new(self.share())
    }
}

impl Connection for Pipe {
    type Error = String;

    fn read(&mut self, buf: &mut [u8]) -> Result<usize, String> {
        let mut left = self.reads_before_failure.borrow_mut();
        if let Some(n) = left.as_mut() {
            if *n == 0 {
                return Err("reset".to_string());
            }
            *n -= 1;
        }
        let mut lane = self.incoming.borrow_mut();
        let n = buf.len().min(self.step).min(lane.bytes.len());
        for slot in buf.iter_mut().take(n) {
            *slot = lane.bytes.pop_front().unwrap();
        }
        Ok(n)
    }

    fn write(&mut self, buf: &[u8]) -> Result<usize, String> {
        if self.writes_fail {
            return Err("broken pipe".to_string());
        }
        if self.writes_stall {
            return Ok(0);
        }
        let n = buf.len().min(self.step);
        self.outgoing.borrow_mut().bytes.extend(buf[..n].iter().copied());
        Ok(n)
    }

    fn try_clone(&self) -> Result<Pipe, String> {
        let mut left = self.clones_before_failure.borrow_mut();
        if let Some(n) = left.as_mut() {
            if *n == 0 {
                return Err("too many handles".to_string());
            }
            *n -= 1;
        }
        *self.clones.borrow_mut() += 1;
        Ok(Pipe {
            incoming: self.incoming.clone(),
            outgoing: self.outgoing.clone(),
            step: self.step,
            reads_before_failure: self.reads_before_failure.clone(),
            writes_fail: self.writes_fail,
            writes_stall: self.writes_stall,
            clones_before_failure: self.clones_before_failure.clone(),
            clones: self.clones.clone(),
        })
    }
}

fn raw(payload: Vec<u8>) -> Option<Vec<u8>> {
    Some(payload)
}

fn text_message(text: &str) -> StringValue {
    let mut message = StringValue::new();
    message.set_value(text.to_string());
    message
}

fn decode_text(payload: Vec<u8>) -> Option<StringValue> {
    StringValue::parse_from_bytes(&payload).ok()
}

#[test]
fn frame_of_empty_message() {
    assert_eq!(encode_frame(b""), Ok(vec![0]));
}

#[test]
fn frame_prefix_exact_values() {
    assert_eq!(encode_frame(b"abc"), Ok(vec![3, b'a', b'b', b'c']));
    let frame = encode_frame(&[7u8; 127]).unwrap();
    assert_eq!(frame[..1], [0x7f]);
    assert_eq!(frame.len(), 128);
    let frame = encode_frame(&[7u8; 128]).unwrap();
    assert_eq!(frame[..2], [0x80, 0x01]);
    assert_eq!(frame.len(), 130);
    let frame = encode_frame(&[7u8; 300]).unwrap();
    assert_eq!(frame[..2], [0xac, 0x02]);
    assert_eq!(&frame[2..], &[7u8; 300][..]);
    let frame = encode_frame(&vec![1u8; 16384]).unwrap();
    assert_eq!(frame[..3], [0x80, 0x80, 0x01]);
}

#[test]
fn frame_of_largest_message() {
    let payload = vec![0x5au8; MAX_MESSAGE_LEN as usize];
    let frame = encode_frame(&payload).unwrap();
    assert_eq!(frame[..4], [0x80, 0x80, 0x80, 0x20]);
    assert_eq!(frame.len(), payload.len() + 4);
}

#[test]
fn frame_of_oversized_message_is_refused() {
    let payload = vec![0u8; MAX_MESSAGE_LEN as usize + 1];
    assert_eq!(encode_frame(&payload), Err(FrameError::Oversized));
}

#[test]
fn write_all_writes_everything_in_small_transfers() {
    let (mut near, far) = pair(3);
    assert!(write_all(&mut near.recorded(), b"0123456789").is_ok());
    assert_eq!(far.unread(), 10);
    assert_eq!(near.written(), b"0123456789".to_vec());
    assert!(write_all(&mut near.recorded(), b"").is_ok());
    assert_eq!(near.written(), b"0123456789".to_vec());
}

#[test]
fn write_all_reports_failure_and_stall() {
    let (mut near, _far) = pair(3);
    near.writes_fail = true;
    assert!(matches!(write_all(&mut near.recorded(), b"abc"), Err(RequestError::Io(e)) if e == "broken pipe"));
    near.writes_fail = false;
    near.writes_stall = true;
    assert!(matches!(write_all(&mut near.recorded(), b"abc"), Err(RequestError::WriteZero)));
    assert!(write_all(&mut near.recorded(), b"").is_ok());
}

#[test]
fn message_round_trip_over_a_pair() {
    for step in [1usize, 2, 7, 4096] {
        let (mut near, mut far) = pair(step);
        let messages: Vec<Vec<u8>> = vec![
            vec![],
            b"x".to_vec(),
            (0..=255u8).collect(),
            vec![0x80; 127],
            vec![0xff; 128],
            vec![0x01; 70000],
        ];
        for message in &messages {
            assert!(send_message(&mut near.recorded(), message).is_ok());
        }
        for message in &messages {
            assert_eq!(receive_message(&mut far.recorded()).ok(), Some(message.clone()));
        }
        assert_eq!(far.unread(), 0);
    }
}

#[test]
fn receive_reads_nothing_beyond_the_frame() {
    let (near, mut far) = pair(4096);
    near.outgoing.borrow_mut().bytes.extend([2u8, 10, 20, 30, 40]);
    assert_eq!(receive_message(&mut far.recorded()).ok(), Some(vec![10, 20]));
    assert_eq!(far.unread(), 2);
}

#[test]
fn receive_accepts_a_padded_length_prefix() {
    let (_near, mut far) = pair(4096);
    far.feed(&[0x82, 0x80, 0x00, 5, 6]);
    assert_eq!(receive_message(&mut far.recorded()).ok(), Some(vec![5, 6]));
    assert_eq!(far.unread(), 0);
}

#[test]
fn receive_keeps_the_low_32_bits_of_a_long_prefix() {
    let (_near, mut far) = pair(4096);
    far.feed(&[0x81, 0x80, 0x80, 0x80, 0x80, 0x01, 9]);
    assert_eq!(receive_message(&mut far.recorded()).ok(), Some(vec![9]));
    let (_near, mut far) = pair(4096);
    far.feed(&[0x83, 0x80, 0x80, 0x80, 0x80, 0x80, 0x80, 0x80, 0x80, 0x7f, 1, 2, 3, 4]);
    assert_eq!(receive_message(&mut far.recorded()).ok(), Some(vec![1, 2, 3]));
    assert_eq!(far.unread(), 1);
}

#[test]
fn receive_on_a_stream_that_ends_in_the_prefix() {
    let (_near, mut far) = pair(4096);
    assert!(matches!(receive_message(&mut far.recorded()), Err(RequestError::UnexpectedEof)));
    far.feed(&[0x80, 0x80]);
    assert!(matches!(receive_message(&mut far.recorded()), Err(RequestError::UnexpectedEof)));
}

#[test]
fn receive_on_a_stream_that_ends_in_the_message() {
    let (_near, mut far) = pair(2);
    far.feed(&[5, 1, 2, 3, 4]);
    let outcome = receive_message(&mut far.recorded());
    assert!(matches!(outcome, Err(RequestError::UnexpectedEof)));
    assert!(outcome.unwrap_err().is_io());
}

#[test]
fn receive_refuses_an_oversized_length_before_reading_on() {
    let (_near, mut far) = pair(4096);
    far.feed(&[0x81, 0x80, 0x80, 0x20, 1, 2, 3]);
    assert!(matches!(receive_message(&mut far.recorded()), Err(RequestError::Oversized)));
    assert_eq!(far.unread(), 3);
    let (_near, mut far) = pair(4096);
    far.feed(&[0xff, 0xff, 0xff, 0xff, 0x0f]);
    assert!(matches!(receive_message(&mut far.recorded()), Err(RequestError::Oversized)));
}

#[test]
fn receive_accepts_the_largest_length() {
    let (_near, mut far) = pair(1 << 20);
    far.feed(&[0x80, 0x80, 0x80, 0x20]);
    far.feed(&vec![3u8; MAX_MESSAGE_LEN as usize]);
    let message = receive_message(&mut far.recorded()).ok().unwrap();
    assert_eq!(message.len(), MAX_MESSAGE_LEN as usize);
    assert!(message.iter().all(|b| *b == 3));
}

#[test]
fn receive_refuses_a_prefix_that_does_not_end() {
    let (_near, mut far) = pair(4096);
    far.feed(&[0x80; 12]);
    assert!(matches!(receive_message(&mut far.recorded()), Err(RequestError::MalformedLength)));
    assert_eq!(far.unread(), 2);
}

#[test]
fn receive_reports_a_failed_read() {
    let (_near, mut far) = pair(1);
    far.feed(&[3, 1, 2, 3]);
    *far.reads_before_failure.borrow_mut() = Some(2);
    assert!(matches!(receive_message(&mut far.recorded()), Err(RequestError::Io(e)) if e == "reset"));
    let (_near, mut far) = pair(1);
    far.feed(&[0x80, 0x01]);
    *far.reads_before_failure.borrow_mut() = Some(1);
    assert!(matches!(receive_message(&mut far.recorded()), Err(RequestError::Io(e)) if e == "reset"));
}

#[test]
fn send_refuses_an_oversized_message_and_writes_nothing() {
    let (mut near, far) = pair(4096);
    let payload = vec![0u8; MAX_MESSAGE_LEN as usize + 1];
    assert!(matches!(send_message(&mut near.recorded(), &payload), Err(RequestError::Oversized)));
    assert_eq!(far.unread(), 0);
}

#[test]
fn request_writes_the_framed_request_and_returns_the_response() {
    let (near, mut far) = pair(5);
    assert!(send_message(&mut far.recorded(), b"the response").is_ok());
    let mut server = ServerConnection::new(near);
    let response = server.request(b"the request", raw);
    assert_eq!(response.ok(), Some(b"the response".to_vec()));
    assert_eq!(receive_message(&mut far.recorded()).ok(), Some(b"the request".to_vec()));
    assert_eq!(far.unread(), 0);
}

#[test]
fn request_uses_two_duplicates_and_keeps_its_handle() {
    let (near, mut far) = pair(4096);
    let clones = near.clones.clone();
    assert!(send_message(&mut far.recorded(), b"one").is_ok());
    assert!(send_message(&mut far.recorded(), b"two").is_ok());
    let mut server = ServerConnection::new(near);
    assert_eq!(server.request(b"a", raw).ok(), Some(b"one".to_vec()));
    assert_eq!(*clones.borrow(), 2);
    assert_eq!(server.request(b"b", raw).ok(), Some(b"two".to_vec()));
    assert_eq!(*clones.borrow(), 4);
    let near = server.into_inner();
    assert_eq!(near.written(), vec![1, b'a', 1, b'b']);
}

#[test]
fn request_round_trip_of_messages() {
    let (near, mut far) = pair(3);
    let answer = text_message("cache hit");
    assert!(send_message(&mut far.recorded(), &answer.write_to_bytes().unwrap()).is_ok());
    let mut server = ServerConnection::new(near);
    let question = text_message("compile main.c");
    let response = server.request(&question.write_to_bytes().unwrap(), decode_text);
    assert_eq!(response.ok(), Some(answer));
    let seen = receive_message(&mut far.recorded()).ok().unwrap();
    assert_eq!(decode_text(seen), Some(question));
}

#[test]
fn request_fails_with_io_error_when_peer_closes_inside_the_message() {
    let (near, far) = pair(4096);
    far.outgoing.borrow_mut().bytes.extend([10u8, 1, 2, 3]);
    let mut server = ServerConnection::new(near);
    let outcome = server.request(b"q", decode_text);
    assert!(matches!(outcome, Err(RequestError::UnexpectedEof)));
    let error = outcome.unwrap_err();
    assert!(error.is_io());
    assert!(!matches!(error, RequestError::Decode));
}

#[test]
fn request_fails_with_decode_error_on_an_invalid_response() {
    let (near, mut far) = pair(4096);
    assert!(send_message(&mut far.recorded(), &[0x0a, 0x05, b'a']).is_ok());
    let mut server = ServerConnection::new(near);
    let outcome = server.request(b"q", decode_text);
    assert!(matches!(outcome, Err(RequestError::Decode)));
    assert!(!outcome.unwrap_err().is_io());
    assert_eq!(far.unread(), 2);
}

#[test]
fn request_refuses_an_oversized_request_before_any_transfer() {
    let (near, far) = pair(4096);
    let clones = near.clones.clone();
    let mut server = ServerConnection::new(near);
    let payload = vec![0u8; MAX_MESSAGE_LEN as usize + 1];
    assert!(matches!(server.request(&payload, raw), Err(RequestError::Oversized)));
    assert_eq!(*clones.borrow(), 0);
    assert_eq!(far.unread(), 0);
}

#[test]
fn request_reports_a_failed_duplication() {
    let (near, mut far) = pair(4096);
    assert!(send_message(&mut far.recorded(), b"answer").is_ok());
    *near.clones_before_failure.borrow_mut() = Some(0);
    let mut server = ServerConnection::new(near);
    assert!(matches!(server.request(b"q", raw), Err(RequestError::Io(e)) if e == "too many handles"));
    assert_eq!(far.unread(), 0);
    let near = server.into_inner();
    *near.clones_before_failure.borrow_mut() = Some(1);
    let mut server = ServerConnection::new(near);
    assert!(matches!(server.request(b"q", raw), Err(RequestError::Io(e)) if e == "too many handles"));
    assert_eq!(receive_message(&mut far.recorded()).ok(), Some(b"q".to_vec()));
}

#[test]
fn request_reports_a_failed_write() {
    let (mut near, mut far) = pair(4096);
    assert!(send_message(&mut far.recorded(), b"answer").is_ok());
    near.writes_fail = true;
    let mut server = ServerConnection::new(near);
    assert!(matches!(server.request(b"q", raw), Err(RequestError::Io(e)) if e == "broken pipe"));
    assert_eq!(server.into_inner().unread(), 7);
}

#[test]
fn duplicates_share_one_stream() {
    let (near, far) = pair(2);
    let mut writer = Recorded::new(near.try_clone().unwrap());
    let mut other_writer = Recorded::new(near.try_clone().unwrap());
    let mut reader = Recorded::new(far.try_clone().unwrap());
    let mut other_reader = Recorded::new(far.try_clone().unwrap());
    assert!(write_all(&mut writer, b"abcd").is_ok());
    assert!(write_all(&mut other_writer, b"efgh").is_ok());
    let mut buf = [0u8; 3];
    let mut seen = Vec::new();
    for _ in 0..2 {
        let n = reader.read(&mut buf).unwrap();
        seen.extend_from_slice(&buf[..n]);
        let n = other_reader.read(&mut buf).unwrap();
        seen.extend_from_slice(&buf[..n]);
    }
    assert_eq!(seen, b"abcdefgh".to_vec());
    assert_eq!(reader.read(&mut buf), Ok(0));
}
