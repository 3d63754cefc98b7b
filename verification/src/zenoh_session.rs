//! Session-level vocabulary of the Zenoh connector: the session's state,
//! its error, query identifiers and the frames of a query's reply stream.

use vstd::prelude::*;
use vstd::string::StringExecFns;

use crate::connector_error::ConnectorError;

verus! {

/// Liveness of a Zenoh session.
#[derive(Debug)]
pub enum SessionState {
    /// Opening, or reconnecting after a loss.
    Connecting,
    /// Open and usable.
    Alive,
    /// Closed for good; the text says why.
    Closed { reason: String },
}

/// Whether two states are the same state (a closed state with the same reason).
pub open spec fn same_state(a: &SessionState, b: &SessionState) -> bool {
    match (a, b) {
        (SessionState::Connecting, SessionState::Connecting) => true,
        (SessionState::Alive, SessionState::Alive) => true,
        (SessionState::Closed { reason: x }, SessionState::Closed { reason: y }) => x@ == y@,
        _ => false,
    }
}

impl SessionState {
    /// Whether this is the `Alive` state.
    pub fn is_alive(&self) -> (r: bool)
        ensures
            r == (*self is Alive),
    {
        match self {
            SessionState::Alive => true,
            _ => false,
        }
    }
}

impl Clone for SessionState {
    fn clone(&self) -> (r: Self)
        ensures
            r == *self,
    {
        match self {
            SessionState::Connecting => SessionState::Connecting,
            SessionState::Alive => SessionState::Alive,
            SessionState::Closed { reason } => SessionState::Closed { reason: reason.clone() },
        }
    }
}

impl PartialEq for SessionState {
    fn eq(&self, other: &Self) -> (r: bool) {
        match (self, other) {
            (SessionState::Connecting, SessionState::Connecting) => true,
            (SessionState::Alive, SessionState::Alive) => true,
            (SessionState::Closed { reason: x }, SessionState::Closed { reason: y }) => *x == *y,
            _ => false,
        }
    }
}

impl vstd::std_specs::cmp::PartialEqSpecImpl for SessionState {
    open spec fn obeys_eq_spec() -> bool {
        true
    }

    open spec fn eq_spec(&self, other: &Self) -> bool {
        same_state(self, other)
    }
}

impl Eq for SessionState {}

/// Failure of a session operation.
#[derive(Debug)]
pub enum SessionError {
    /// The session is not `Alive`; the text says why.
    NotAlive { reason: String },
}

/// The text that `SessionError::to_string` renders.
pub open spec fn session_error_text(e: &SessionError) -> Seq<char> {
    match e {
        SessionError::NotAlive { reason } => "session not alive: "@ + reason@,
    }
}

impl SessionError {
    /// Human-readable rendering of the error.
    pub fn to_string(&self) -> (r: String)
        ensures
            r@ == session_error_text(self),
    {
        match self {
            SessionError::NotAlive { reason } => {
                let mut s = String::from_str("session not alive: ");
                s.append(reason.as_str());
                s
            },
        }
    }
}

/// Identifier that ties a query to the frames of its reply stream.
#[derive(Clone, Copy, Debug, PartialEq, Eq, Hash)]
pub struct QueryId(pub [u8; 32]);

/// Byte `i` (most significant first) of the big-endian encoding of `n`.
pub open spec fn be_byte(n: u64, i: int) -> u8 {
    (n >> ((56 - 8 * i) as u64)) as u8
}

/// The bytes of the identifier minted from counter value `n`: the eight
/// big-endian bytes of `n`, then 24 zero bytes.
pub open spec fn counter_id_bytes(n: u64) -> Seq<u8> {
    Seq::new(32, |i: int| if i < 8 { be_byte(n, i) } else { 0u8 })
}

/// The identifier minted from counter value `n`.
pub fn query_id_from_counter(n: u64) -> (r: QueryId)
    ensures
        r.0@ == counter_id_bytes(n),
{
    let mut bytes = [0u8; 32];
    let mut i: usize = 0;
    while i < 8
        invariant
            i <= 8,
            bytes@.len() == 32,
            forall|k: int| 0 <= k < i ==> bytes@[k] == be_byte(n, k),
            forall|k: int| 8 <= k < 32 ==> bytes@[k] == 0u8,
        decreases 8 - i,
    {
        let shift: u64 = 56 - 8 * (i as u64);
        bytes[i] = (n >> shift) as u8;
        i = i + 1;
    }
    proof {
        assert(bytes@ =~= counter_id_bytes(n));
    }
    QueryId(bytes)
}

/// Distinct counter values give distinct identifiers.
pub proof fn lemma_counter_ids_distinct(n: u64, m: u64)
    requires
        n != m,
    ensures
        counter_id_bytes(n) != counter_id_bytes(m),
{
    if counter_id_bytes(n) == counter_id_bytes(m) {
        assert(counter_id_bytes(n)[0] == counter_id_bytes(m)[0]);
        assert(counter_id_bytes(n)[1] == counter_id_bytes(m)[1]);
        assert(counter_id_bytes(n)[2] == counter_id_bytes(m)[2]);
        assert(counter_id_bytes(n)[3] == counter_id_bytes(m)[3]);
        assert(counter_id_bytes(n)[4] == counter_id_bytes(m)[4]);
        assert(counter_id_bytes(n)[5] == counter_id_bytes(m)[5]);
        assert(counter_id_bytes(n)[6] == counter_id_bytes(m)[6]);
        assert(counter_id_bytes(n)[7] == counter_id_bytes(m)[7]);
        assert(n == m) by (bit_vector)
            requires
                (n >> 56u64) as u8 == (m >> 56u64) as u8,
                (n >> 48u64) as u8 == (m >> 48u64) as u8,
                (n >> 40u64) as u8 == (m >> 40u64) as u8,
                (n >> 32u64) as u8 == (m >> 32u64) as u8,
                (n >> 24u64) as u8 == (m >> 24u64) as u8,
                (n >> 16u64) as u8 == (m >> 16u64) as u8,
                (n >> 8u64) as u8 == (m >> 8u64) as u8,
                (n >> 0u64) as u8 == (m >> 0u64) as u8,
        ;
    }
}

/// Hands out query identifiers from a counter of its own, so that callers
/// get a predictable sequence independent of any other minter.
#[derive(Debug)]
pub struct ZeroedMinter {
    counter: u64,
}

impl ZeroedMinter {
    /// The counter value the next identifier is minted from.
    pub closed spec fn counter(&self) -> u64 {
        self.counter
    }

    /// A minter whose first identifier comes from counter value 1.
    pub fn new() -> (r: Self)
        ensures
            r.counter() == 1,
    {
        ZeroedMinter { counter: 1 }
    }

    /// Mint the identifier of the current counter value and advance the
    /// counter (wrapping after `u64::MAX`).
    pub fn next(&mut self) -> (r: QueryId)
        ensures
            r.0@ == counter_id_bytes(old(self).counter()),
            final(self).counter() == (if old(self).counter() == u64::MAX {
                0
            } else {
                old(self).counter() + 1
            }),
    {
        let n = self.counter;
        self.counter = n.wrapping_add(1);
        query_id_from_counter(n)
    }
}

impl Default for ZeroedMinter {
    /// A minter whose counter starts at zero.
    fn default() -> (r: Self)
        ensures
            r.counter() == 0,
    {
        ZeroedMinter { counter: 0 }
    }
}

/// Two identifiers minted one after the other by the same minter differ.
pub proof fn lemma_successive_ids_differ(a: u64, b: u64)
    requires
        b == (if a == u64::MAX { 0 } else { a + 1 }),
    ensures
        counter_id_bytes(a) != counter_id_bytes(b),
{
    lemma_counter_ids_distinct(a, b);
}

/// Kind of a frame on a query's reply stream, given by its first byte.
#[derive(PartialEq, Eq, Structural, Clone, Copy, Debug)]
pub enum FrameKind {
    /// `0x01`: one reply chunk follows.
    Data,
    /// `0x02`: the queryable ended the stream.
    EndOfStream,
    /// `0x03`: the gateway ended the stream because the query timed out.
    Timeout,
}

/// The frame kind a discriminator byte stands for, if any.
pub open spec fn frame_kind_of(b: u8) -> Option<FrameKind> {
    if b == 1 {
        Some(FrameKind::Data)
    } else if b == 2 {
        Some(FrameKind::EndOfStream)
    } else if b == 3 {
        Some(FrameKind::Timeout)
    } else {
        None
    }
}

impl FrameKind {
    /// The frame kind a discriminator byte stands for, if any.
    pub fn from_byte(b: u8) -> (r: Option<FrameKind>)
        ensures
            r == frame_kind_of(b),
    {
        if b == 1 {
            Some(FrameKind::Data)
        } else if b == 2 {
            Some(FrameKind::EndOfStream)
        } else if b == 3 {
            Some(FrameKind::Timeout)
        } else {
            None
        }
    }

    /// The discriminator byte of this frame kind.
    pub fn to_byte(self) -> (r: u8)
        ensures
            frame_kind_of(r) == Some(self),
    {
        match self {
            FrameKind::Data => 1,
            FrameKind::EndOfStream => 2,
            FrameKind::Timeout => 3,
        }
    }
}

/// One event of a query's reply stream, as the querier hands it out.
#[derive(Debug, Clone)]
pub enum QuerierEvent<R> {
    /// One decoded reply chunk.
    Reply { id: QueryId, value: R },
    /// The queryable ended the stream.
    EndOfStream { id: QueryId },
    /// The query expired before the queryable finished.
    Timeout { id: QueryId },
}

/// A classified reply frame, before its body is decoded.
#[derive(PartialEq, Eq, Structural, Clone, Copy, Debug)]
pub enum ReplyFrame {
    /// A data frame of `len` bytes; the body is bytes `1..len`.
    Data { len: usize },
    /// The end of the stream.
    EndOfStream,
    /// The timeout terminator.
    Timeout,
}

/// The upper-case hexadecimal digits, by value.
pub open spec fn hex_digits() -> Seq<char> {
    seq!['0', '1', '2', '3', '4', '5', '6', '7', '8', '9', 'A', 'B', 'C', 'D', 'E', 'F']
}

/// The message of the error for an unknown discriminator byte `b`.
pub open spec fn invalid_frame_message(b: u8) -> Seq<char> {
    "invalid reply-frame discriminator: 0x"@ + seq![
        hex_digits()[b as int / 16],
        hex_digits()[b as int % 16],
    ]
}

/// The one-character string of the hexadecimal digit `d`.
fn hex_str(d: u8) -> (s: &'static str)
    requires
        d < 16,
    ensures
        s@ == seq![hex_digits()[d as int]],
{
    proof {
        reveal_strlit("0");
        reveal_strlit("1");
        reveal_strlit("2");
        reveal_strlit("3");
        reveal_strlit("4");
        reveal_strlit("5");
        reveal_strlit("6");
        reveal_strlit("7");
        reveal_strlit("8");
        reveal_strlit("9");
        reveal_strlit("A");
        reveal_strlit("B");
        reveal_strlit("C");
        reveal_strlit("D");
        reveal_strlit("E");
        reveal_strlit("F");
    }
    match d {
        0 => "0",
        1 => "1",
        2 => "2",
        3 => "3",
        4 => "4",
        5 => "5",
        6 => "6",
        7 => "7",
        8 => "8",
        9 => "9",
        10 => "A",
        11 => "B",
        12 => "C",
        13 => "D",
        14 => "E",
        _ => "F",
    }
}

/// Classify a reply frame by its first byte. An empty frame carries
/// nothing; a data frame's body is the rest of the frame; an unknown first
/// byte is an error that names it in hexadecimal.
pub fn classify_reply(frame: &[u8]) -> (r: Result<Option<ReplyFrame>, ConnectorError>)
    ensures
        frame@.len() == 0 ==> r == Ok::<Option<ReplyFrame>, ConnectorError>(None),
        frame@.len() > 0 ==> match frame_kind_of(frame@[0]) {
            Some(FrameKind::Data) => r == Ok::<Option<ReplyFrame>, ConnectorError>(
                Some(ReplyFrame::Data { len: frame@.len() as usize }),
            ),
            Some(FrameKind::EndOfStream) => r == Ok::<Option<ReplyFrame>, ConnectorError>(
                Some(ReplyFrame::EndOfStream),
            ),
            Some(FrameKind::Timeout) => r == Ok::<Option<ReplyFrame>, ConnectorError>(
                Some(ReplyFrame::Timeout),
            ),
            None => r matches Err(ConnectorError::Stack(m)) && m@ == invalid_frame_message(
                frame@[0],
            ),
        },
{
    let len = frame.len();
    if len == 0 {
        return Ok(None);
    }
    let first = frame[0];
    match FrameKind::from_byte(first) {
        Some(FrameKind::Data) => Ok(Some(ReplyFrame::Data { len })),
        Some(FrameKind::EndOfStream) => Ok(Some(ReplyFrame::EndOfStream)),
        Some(FrameKind::Timeout) => Ok(Some(ReplyFrame::Timeout)),
        None => {
            let mut m = String::from_str("invalid reply-frame discriminator: 0x");
            proof {
                reveal_strlit("invalid reply-frame discriminator: 0x");
            }
            m.append(hex_str(first / 16));
            m.append(hex_str(first % 16));
            proof {
                assert(m@ =~= invalid_frame_message(first));
            }
            Err(ConnectorError::Stack(m))
        },
    }
}

/// The event a classified reply frame of query `id` becomes; for a data
/// frame, `value` is its decoded body.
pub fn querier_event<R>(id: QueryId, frame: ReplyFrame, value: Option<R>) -> (r: QuerierEvent<R>)
    requires
        (frame is Data) == (value is Some),
    ensures
        match frame {
            ReplyFrame::Data { .. } => r == QuerierEvent::Reply { id, value: value.unwrap() },
            ReplyFrame::EndOfStream => r == QuerierEvent::<R>::EndOfStream { id },
            ReplyFrame::Timeout => r == QuerierEvent::<R>::Timeout { id },
        },
{
    match frame {
        ReplyFrame::Data { .. } => QuerierEvent::Reply { id, value: value.unwrap() },
        ReplyFrame::EndOfStream => QuerierEvent::EndOfStream { id },
        ReplyFrame::Timeout => QuerierEvent::Timeout { id },
    }
}

} // verus!
