use vstd::prelude::*;

use crate::bytes::{copy_bytes, copy_range};
use crate::speed_daemon::engine::{PlateReading, PlateReadingView};
use crate::speed_daemon::wire::{
    be16_at, be16_bytes, be32_at, be32_bytes, lemma_be16_roundtrip, lemma_be32_roundtrip,
    read_u16_be, read_u32_be,
};

verus! {

/// Message type bytes of the clients' messages.
pub const PLATE_TYPE: u8 = 0x20;
pub const WANT_HEARTBEAT_TYPE: u8 = 0x40;
pub const I_AM_CAMERA_TYPE: u8 = 0x80;
pub const I_AM_DISPATCHER_TYPE: u8 = 0x81;

/// What a client has said it is.
#[derive(Clone, Copy, Debug, PartialEq, Eq, Structural)]
pub enum Identity {
    Unset,
    Camera { road: u16, mile: u16, limit: u16 },
    Dispatcher,
}

/// The protocol state of one client connection.
#[derive(Clone, Copy, Debug, PartialEq, Eq, Structural)]
pub struct Connection {
    pub identity: Identity,
    pub heartbeat_requested: bool,
}

/// Why a client is disconnected with an error message.
#[derive(Clone, Copy, Debug, PartialEq, Eq, Structural)]
pub enum ClientError {
    IdAlreadySet,
    NotACamera,
    HeartbeatAlreadyRequested,
    InvalidMessageType,
}

/// The text of the error message sent for each error.
pub open spec fn error_text(e: ClientError) -> Seq<char> {
    match e {
        ClientError::IdAlreadySet => "id is already set"@,
        ClientError::NotACamera => "not a camera"@,
        ClientError::HeartbeatAlreadyRequested => "already requested heartbeat"@,
        ClientError::InvalidMessageType => "invalid message type"@,
    }
}

impl ClientError {
    /// The text sent to the client for this error.
    pub fn text(&self) -> (r: &'static str)
        ensures
            r@ == error_text(*self),
    {
        match self {
            ClientError::IdAlreadySet => "id is already set",
            ClientError::NotACamera => "not a camera",
            ClientError::HeartbeatAlreadyRequested => "already requested heartbeat",
            ClientError::InvalidMessageType => "invalid message type",
        }
    }
}

/// A message from a client.
#[derive(Debug, PartialEq, Eq)]
pub enum ClientMessage {
    IAmCamera { road: u16, mile: u16, limit: u16 },
    IAmDispatcher { roads: Vec<u16> },
    Plate { plate: Vec<u8>, timestamp: u32 },
    WantHeartbeat { interval: u32 },
}

pub enum ClientMessageView {
    IAmCamera { road: u16, mile: u16, limit: u16 },
    IAmDispatcher { roads: Seq<u16> },
    Plate { plate: Seq<u8>, timestamp: u32 },
    WantHeartbeat { interval: u32 },
}

impl View for ClientMessage {
    type V = ClientMessageView;

    open spec fn view(&self) -> ClientMessageView {
        match self {
            ClientMessage::IAmCamera { road, mile, limit } => ClientMessageView::IAmCamera {
                road: *road,
                mile: *mile,
                limit: *limit,
            },
            ClientMessage::IAmDispatcher { roads } => ClientMessageView::IAmDispatcher {
                roads: roads@,
            },
            ClientMessage::Plate { plate, timestamp } => ClientMessageView::Plate {
                plate: plate@,
                timestamp: *timestamp,
            },
            ClientMessage::WantHeartbeat { interval } => ClientMessageView::WantHeartbeat {
                interval: *interval,
            },
        }
    }
}

/// What the server does in response to an accepted message.
#[derive(Debug, PartialEq, Eq)]
pub enum Effect {
    Nothing,
    /// Hand a camera's observation to the ticketing bookkeeping.
    Report(PlateReading),
    /// Register this connection as a dispatcher for these roads.
    RegisterDispatcher { roads: Vec<u16> },
    /// Send a heartbeat every `period_millis` milliseconds.
    StartHeartbeat { period_millis: u64 },
}

pub enum EffectView {
    Nothing,
    Report(PlateReadingView),
    RegisterDispatcher { roads: Seq<u16> },
    StartHeartbeat { period_millis: u64 },
}

impl View for Effect {
    type V = EffectView;

    open spec fn view(&self) -> EffectView {
        match self {
            Effect::Nothing => EffectView::Nothing,
            Effect::Report(r) => EffectView::Report(r@),
            Effect::RegisterDispatcher { roads } => EffectView::RegisterDispatcher { roads: roads@ },
            Effect::StartHeartbeat { period_millis } => EffectView::StartHeartbeat {
                period_millis: *period_millis,
            },
        }
    }
}

/// The result of looking at the bytes received so far.
#[derive(Debug, PartialEq, Eq)]
pub enum Outcome {
    /// The bytes do not yet hold a whole message.
    Incomplete,
    /// The client is to be sent this error and disconnected.
    Reject(ClientError),
    /// The first `length` bytes held `message`, which leads to `effect`.
    Accepted { length: usize, message: ClientMessage, effect: Effect },
}

pub enum OutcomeView {
    Incomplete,
    Reject(ClientError),
    Accepted { length: int, message: ClientMessageView, effect: EffectView },
}

impl View for Outcome {
    type V = OutcomeView;

    open spec fn view(&self) -> OutcomeView {
        match self {
            Outcome::Incomplete => OutcomeView::Incomplete,
            Outcome::Reject(e) => OutcomeView::Reject(*e),
            Outcome::Accepted { length, message, effect } => OutcomeView::Accepted {
                length: *length as int,
                message: message@,
                effect: effect@,
            },
        }
    }
}

/// The result of parsing the bytes received so far, before the message is acted on.
pub enum ParseView {
    Incomplete,
    Reject(ClientError),
    Parsed { length: int, message: ClientMessageView },
}

/// The roads of an IAmDispatcher message whose count byte is at 1.
pub open spec fn roads_at(s: Seq<u8>, count: int) -> Seq<u16> {
    Seq::new(count as nat, |k: int| be16_at(s, 2 + 2 * k) as u16)
}

/// How the bytes `s` received so far parse in state `c`. A message type that the
/// state forbids is rejected as soon as its type byte arrives.
pub open spec fn spec_parse(c: Connection, s: Seq<u8>) -> ParseView {
    if s.len() == 0 {
        ParseView::Incomplete
    } else if s[0] == I_AM_CAMERA_TYPE {
        if !(c.identity is Unset) {
            ParseView::Reject(ClientError::IdAlreadySet)
        } else if s.len() < 7 {
            ParseView::Incomplete
        } else {
            ParseView::Parsed {
                length: 7,
                message: ClientMessageView::IAmCamera {
                    road: be16_at(s, 1) as u16,
                    mile: be16_at(s, 3) as u16,
                    limit: be16_at(s, 5) as u16,
                },
            }
        }
    } else if s[0] == I_AM_DISPATCHER_TYPE {
        if !(c.identity is Unset) {
            ParseView::Reject(ClientError::IdAlreadySet)
        } else if s.len() < 2 || s.len() < 2 + 2 * s[1] {
            ParseView::Incomplete
        } else {
            ParseView::Parsed {
                length: 2 + 2 * s[1],
                message: ClientMessageView::IAmDispatcher { roads: roads_at(s, s[1] as int) },
            }
        }
    } else if s[0] == PLATE_TYPE {
        if !(c.identity is Camera) {
            ParseView::Reject(ClientError::NotACamera)
        } else if s.len() < 2 || s.len() < 6 + s[1] {
            ParseView::Incomplete
        } else {
            ParseView::Parsed {
                length: 6 + s[1],
                message: ClientMessageView::Plate {
                    plate: s.subrange(2, 2 + s[1]),
                    timestamp: be32_at(s, 2 + s[1]) as u32,
                },
            }
        }
    } else if s[0] == WANT_HEARTBEAT_TYPE {
        if c.heartbeat_requested {
            ParseView::Reject(ClientError::HeartbeatAlreadyRequested)
        } else if s.len() < 5 {
            ParseView::Incomplete
        } else {
            ParseView::Parsed {
                length: 5,
                message: ClientMessageView::WantHeartbeat { interval: be32_at(s, 1) as u32 },
            }
        }
    } else {
        ParseView::Reject(ClientError::InvalidMessageType)
    }
}

/// The new state and the effect of a message that state `c` accepts.
pub open spec fn spec_apply(c: Connection, m: ClientMessageView) -> (Connection, EffectView) {
    match m {
        ClientMessageView::IAmCamera { road, mile, limit } => (
            Connection { identity: Identity::Camera { road, mile, limit }, ..c },
            EffectView::Nothing,
        ),
        ClientMessageView::IAmDispatcher { roads } => (
            Connection { identity: Identity::Dispatcher, ..c },
            if roads.len() > 0 {
                EffectView::RegisterDispatcher { roads }
            } else {
                EffectView::Nothing
            },
        ),
        ClientMessageView::Plate { plate, timestamp } => (
            c,
            match c.identity {
                Identity::Camera { road, mile, limit } => EffectView::Report(
                    PlateReadingView { plate, timestamp, road, mile, limit },
                ),
                _ => EffectView::Nothing,
            },
        ),
        ClientMessageView::WantHeartbeat { interval } => (
            Connection { heartbeat_requested: true, ..c },
            if interval > 0 {
                EffectView::StartHeartbeat { period_millis: (interval * 100) as u64 }
            } else {
                EffectView::Nothing
            },
        ),
    }
}

/// The new state and the outcome of the bytes `s` received so far in state `c`.
pub open spec fn spec_receive(c: Connection, s: Seq<u8>) -> (Connection, OutcomeView) {
    match spec_parse(c, s) {
        ParseView::Incomplete => (c, OutcomeView::Incomplete),
        ParseView::Reject(e) => (c, OutcomeView::Reject(e)),
        ParseView::Parsed { length, message } => {
            let (next, effect) = spec_apply(c, message);
            (next, OutcomeView::Accepted { length, message, effect })
        },
    }
}

/// Reads the roads of an IAmDispatcher message.
fn read_roads(buf: &[u8], count: usize) -> (roads: Vec<u16>)
    requires
        2 + 2 * count <= buf@.len(),
    ensures
        roads@ == roads_at(buf@, count as int),
{
    let mut roads: Vec<u16> = Vec::new();
    let n = buf.len();
    for k in 0..count
        invariant
            n == buf@.len(),
            2 + 2 * count <= buf@.len(),
            roads@ == roads_at(buf@, k as int),
    {
        roads.push(read_u16_be(buf, 2 + 2 * k));
        assert(roads@ =~= roads_at(buf@, k + 1));
    }
    roads
}

impl Connection {
    /// A connection that has not identified itself nor asked for heartbeats.
    pub fn new() -> (c: Connection)
        ensures
            c == (Connection { identity: Identity::Unset, heartbeat_requested: false }),
    {
        Connection { identity: Identity::Unset, heartbeat_requested: false }
    }

    /// Parses the first message in `buf` as far as the state allows.
    fn parse(&self, buf: &[u8]) -> (r: Option<Result<(usize, ClientMessage), ClientError>>)
        ensures
            match r {
                None => spec_parse(*self, buf@) is Incomplete,
                Some(Err(e)) => spec_parse(*self, buf@) == ParseView::Reject(e),
                Some(Ok((length, message))) => spec_parse(*self, buf@) == (ParseView::Parsed {
                    length: length as int,
                    message: message@,
                }),
            },
    {
        let n = buf.len();
        if n == 0 {
            return None;
        }
        let kind = buf[0];
        if kind == I_AM_CAMERA_TYPE {
            if !matches!(self.identity, Identity::Unset) {
                return Some(Err(ClientError::IdAlreadySet));
            }
            if n < 7 {
                return None;
            }
            let road = read_u16_be(buf, 1);
            let mile = read_u16_be(buf, 3);
            let limit = read_u16_be(buf, 5);
            Some(Ok((7, ClientMessage::IAmCamera { road, mile, limit })))
        } else if kind == I_AM_DISPATCHER_TYPE {
            if !matches!(self.identity, Identity::Unset) {
                return Some(Err(ClientError::IdAlreadySet));
            }
            if n < 2 {
                return None;
            }
            let count = buf[1] as usize;
            if n < 2 + 2 * count {
                return None;
            }
            let roads = read_roads(buf, count);
            Some(Ok((2 + 2 * count, ClientMessage::IAmDispatcher { roads })))
        } else if kind == PLATE_TYPE {
            if !matches!(self.identity, Identity::Camera { .. }) {
                return Some(Err(ClientError::NotACamera));
            }
            if n < 2 {
                return None;
            }
            let len = buf[1] as usize;
            if n < 6 + len {
                return None;
            }
            let plate = copy_range(buf, 2, 2 + len);
            let timestamp = read_u32_be(buf, 2 + len);
            Some(Ok((6 + len, ClientMessage::Plate { plate, timestamp })))
        } else if kind == WANT_HEARTBEAT_TYPE {
            if self.heartbeat_requested {
                return Some(Err(ClientError::HeartbeatAlreadyRequested));
            }
            if n < 5 {
                return None;
            }
            let interval = read_u32_be(buf, 1);
            Some(Ok((5, ClientMessage::WantHeartbeat { interval })))
        } else {
            Some(Err(ClientError::InvalidMessageType))
        }
    }
    /// Looks at the bytes received so far: reports whether they hold a whole message,
    /// or an error to send before disconnecting; for an accepted message, updates the
    /// state and says what the server is to do.
    pub fn receive(&mut self, buf: &[u8]) -> (r: Outcome)
        ensures
            (*final(self), r@) == spec_receive(*old(self), buf@),
    {
        match self.parse(buf) {
            None => Outcome::Incomplete,
            Some(Err(e)) => Outcome::Reject(e),
            Some(Ok((length, message))) => {
                let effect = self.apply(&message);
                Outcome::Accepted { length, message, effect }
            },
        }
    }

    /// Acts on a message that the state accepts.
    fn apply(&mut self, message: &ClientMessage) -> (e: Effect)
        ensures
            (*final(self), e@) == spec_apply(*old(self), message@),
    {
        match message {
            ClientMessage::IAmCamera { road, mile, limit } => {
                self.identity = Identity::Camera { road: *road, mile: *mile, limit: *limit };
                Effect::Nothing
            },
            ClientMessage::IAmDispatcher { roads } => {
                self.identity = Identity::Dispatcher;
                if roads.len() > 0 {
                    Effect::RegisterDispatcher { roads: copy_roads(roads) }
                } else {
                    Effect::Nothing
                }
            },
            ClientMessage::Plate { plate, timestamp } => {
                match self.identity {
                    Identity::Camera { road, mile, limit } => Effect::Report(
                        PlateReading {
                            plate: copy_bytes(plate.as_slice()),
                            timestamp: *timestamp,
                            road,
                            mile,
                            limit,
                        },
                    ),
                    _ => Effect::Nothing,
                }
            },
            ClientMessage::WantHeartbeat { interval } => {
                self.heartbeat_requested = true;
                if *interval > 0 {
                    Effect::StartHeartbeat { period_millis: (*interval as u64) * 100 }
                } else {
                    Effect::Nothing
                }
            },
        }
    }
}

/// A copy of a list of roads.
fn copy_roads(v: &Vec<u16>) -> (r: Vec<u16>)
    ensures
        r@ == v@,
{
    let r = v.clone();
    assert(r@ =~= v@);
    r
}

/// Law: the bytes of a message parse the same whatever follows them; a rejection
/// stands whatever follows the type byte; and a parsed message takes at least one byte
/// and no more than were received.
pub proof fn lemma_parse_prefix_stable(c: Connection, s: Seq<u8>, more: Seq<u8>)
    ensures
        spec_parse(c, s) matches ParseView::Parsed { length, message } ==> {
            &&& 0 < length <= s.len()
            &&& spec_parse(c, s + more) == spec_parse(c, s)
        },
        spec_parse(c, s) is Reject ==> spec_parse(c, s + more) == spec_parse(c, s),
{
    let t = s + more;
    if s.len() > 0 {
        assert(t[0] == s[0]);
        if s.len() >= 2 {
            assert(t[1] == s[1]);
        }
        if let ParseView::Parsed { length, message } = spec_parse(c, s) {
            assert forall|i: int| 0 <= i < length implies t[i] == s[i] by {}
            if s[0] == I_AM_DISPATCHER_TYPE {
                assert(roads_at(t, s[1] as int) =~= roads_at(s, s[1] as int));
            } else if s[0] == PLATE_TYPE {
                assert(t.subrange(2, 2 + s[1]) =~= s.subrange(2, 2 + s[1]));
            }
        }
    }
}

/// The bytes of a list of roads: each road as two big-endian bytes, in order.
pub open spec fn roads_bytes(roads: Seq<u16>) -> Seq<u8> {
    Seq::new(
        2 * roads.len(),
        |i: int|
            if i % 2 == 0 {
                (roads[i / 2] / 256) as u8
            } else {
                (roads[i / 2] % 256) as u8
            },
    )
}

proof fn lemma_be16_in(s: Seq<u8>, at: int, v: u16)
    requires
        0 <= at,
        at + 2 <= s.len(),
        s[at] == be16_bytes(v)[0],
        s[at + 1] == be16_bytes(v)[1],
    ensures
        be16_at(s, at) == v,
{
    lemma_be16_roundtrip(v);
}

proof fn lemma_be32_in(s: Seq<u8>, at: int, v: u32)
    requires
        0 <= at,
        at + 4 <= s.len(),
        s.subrange(at, at + 4) == be32_bytes(v),
    ensures
        be32_at(s, at) == v,
{
    lemma_be32_roundtrip(v);
    assert(s[at] == s.subrange(at, at + 4)[0]);
    assert(s[at + 1] == s.subrange(at, at + 4)[1]);
    assert(s[at + 2] == s.subrange(at, at + 4)[2]);
    assert(s[at + 3] == s.subrange(at, at + 4)[3]);
}

/// Law: an IAmCamera message made of its road, mile and limit reads back as exactly
/// that camera, from a connection that has not identified itself.
pub proof fn lemma_camera_message_roundtrip(c: Connection, road: u16, mile: u16, limit: u16)
    requires
        c.identity is Unset,
    ensures
        spec_parse(c, seq![I_AM_CAMERA_TYPE] + be16_bytes(road) + be16_bytes(mile) + be16_bytes(limit))
            == (ParseView::Parsed {
            length: 7,
            message: ClientMessageView::IAmCamera { road, mile, limit },
        }),
{
    let s = seq![I_AM_CAMERA_TYPE] + be16_bytes(road) + be16_bytes(mile) + be16_bytes(limit);
    lemma_be16_in(s, 1, road);
    lemma_be16_in(s, 3, mile);
    lemma_be16_in(s, 5, limit);
}

/// Law: a Plate message made of a plate (at most 255 bytes) and a timestamp reads back
/// as exactly that plate and timestamp, whatever the timestamp, from a camera.
pub proof fn lemma_plate_message_roundtrip(c: Connection, plate: Seq<u8>, timestamp: u32)
    requires
        c.identity is Camera,
        plate.len() <= 255,
    ensures
        spec_parse(c, seq![PLATE_TYPE, plate.len() as u8] + plate + be32_bytes(timestamp)) == (
        ParseView::Parsed {
            length: 6 + plate.len() as int,
            message: ClientMessageView::Plate { plate, timestamp },
        }),
{
    let s = seq![PLATE_TYPE, plate.len() as u8] + plate + be32_bytes(timestamp);
    let n = plate.len() as int;
    assert(s[1] == n);
    assert(s.subrange(2, 2 + n) =~= plate);
    assert(s.subrange(2 + n, 2 + n + 4) =~= be32_bytes(timestamp));
    lemma_be32_in(s, 2 + n, timestamp);
}

/// Law: a WantHeartbeat message made of an interval reads back as exactly that
/// interval, from a connection that has not asked for heartbeats.
pub proof fn lemma_heartbeat_message_roundtrip(c: Connection, interval: u32)
    requires
        !c.heartbeat_requested,
    ensures
        spec_parse(c, seq![WANT_HEARTBEAT_TYPE] + be32_bytes(interval)) == (ParseView::Parsed {
            length: 5,
            message: ClientMessageView::WantHeartbeat { interval },
        }),
{
    let s = seq![WANT_HEARTBEAT_TYPE] + be32_bytes(interval);
    assert(s.subrange(1, 5) =~= be32_bytes(interval));
    lemma_be32_in(s, 1, interval);
}

/// Law: an IAmDispatcher message made of up to 255 roads reads back as exactly those
/// roads, in order, from a connection that has not identified itself.
pub proof fn lemma_dispatcher_message_roundtrip(c: Connection, roads: Seq<u16>)
    requires
        c.identity is Unset,
        roads.len() <= 255,
    ensures
        spec_parse(c, seq![I_AM_DISPATCHER_TYPE, roads.len() as u8] + roads_bytes(roads)) == (
        ParseView::Parsed {
            length: 2 + 2 * roads.len() as int,
            message: ClientMessageView::IAmDispatcher { roads },
        }),
{
    let s = seq![I_AM_DISPATCHER_TYPE, roads.len() as u8] + roads_bytes(roads);
    let n = roads.len() as int;
    assert(s[1] == n);
    assert forall|k: int| 0 <= k < n implies #[trigger] roads_at(s, n)[k] == roads[k] by {
        assert(s[2 + 2 * k] == roads_bytes(roads)[2 * k]);
        assert(s[3 + 2 * k] == roads_bytes(roads)[2 * k + 1]);
        assert((2 * k) % 2 == 0 && (2 * k) / 2 == k);
        assert((2 * k + 1) % 2 == 1 && (2 * k + 1) / 2 == k);
        lemma_be16_in(s, 2 + 2 * k, roads[k]);
    }
    assert(roads_at(s, n) =~= roads);
}

} // verus!
