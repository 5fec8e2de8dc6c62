//! The course of a receiver's connection.

use crate::options::{is_proxy_line, packet_len, proxy_source, read_proxy_line};
use vstd::prelude::*;

verus! {

/// How far a connection is.
#[derive(Clone, Copy, Debug, PartialEq, Eq, Structural)]
pub enum Phase {
    /// Nothing has come.
    Greeting,
    /// A proxy has passed the connection on.
    Proxied,
    /// The request of the receiver is being read.
    Request,
    /// The header of a packet is next.
    Header,
    /// A packet of so many bytes is next.
    Packet(usize),
    /// The connection is over.
    Closed,
}

/// What has happened on a connection.
#[derive(Debug)]
pub enum Event {
    /// A line has come.
    Line(String),
    /// The request could be read, and the receiver is known from now on.
    Accepted,
    /// The request could not be read.
    Refused,
    /// The two bytes of a header have come.
    HeaderRead(u8, u8),
    /// All bytes of a packet have come.
    PacketRead,
    /// Nothing more can come.
    Lost,
}

/// What is to be done next on a connection.
#[derive(Debug)]
pub enum Action {
    ReadLine,
    /// Read the request in a line.
    ReadRequest(String),
    ReadHeader,
    ReadPacket(usize),
    /// End the connection, and forget the receiver if it is known.
    Close { known: bool },
}

/// What an event holds.
pub enum EventView {
    Line(Seq<char>),
    Accepted,
    Refused,
    HeaderRead(u8, u8),
    PacketRead,
    Lost,
}

/// What an action holds.
pub enum ActionView {
    ReadLine,
    ReadRequest(Seq<char>),
    ReadHeader,
    ReadPacket(usize),
    Close { known: bool },
}

impl Event {
    /// What the event holds.
    pub open spec fn view(&self) -> EventView {
        match *self {
            Event::Line(s) => EventView::Line(s@),
            Event::Accepted => EventView::Accepted,
            Event::Refused => EventView::Refused,
            Event::HeaderRead(a, b) => EventView::HeaderRead(a, b),
            Event::PacketRead => EventView::PacketRead,
            Event::Lost => EventView::Lost,
        }
    }
}

impl Action {
    /// What the action holds.
    pub open spec fn view(&self) -> ActionView {
        match *self {
            Action::ReadLine => ActionView::ReadLine,
            Action::ReadRequest(s) => ActionView::ReadRequest(s@),
            Action::ReadHeader => ActionView::ReadHeader,
            Action::ReadPacket(n) => ActionView::ReadPacket(n),
            Action::Close { known } => ActionView::Close { known },
        }
    }
}

/// The receiver of a connection is known.
pub open spec fn is_known(phase: Phase) -> bool {
    phase is Header || phase is Packet
}

/// How a connection goes on. What does not fit ends it.
pub open spec fn next(phase: Phase, event: EventView) -> (Phase, ActionView) {
    match (phase, event) {
        (Phase::Greeting, EventView::Line(s)) => if is_proxy_line(s) {
            (Phase::Proxied, ActionView::ReadLine)
        } else {
            (Phase::Request, ActionView::ReadRequest(s))
        },
        (Phase::Proxied, EventView::Line(s)) => (Phase::Request, ActionView::ReadRequest(s)),
        (Phase::Request, EventView::Accepted) => (Phase::Header, ActionView::ReadHeader),
        (Phase::Header, EventView::HeaderRead(a, b)) => if a == 0 && b == 0 {
            (Phase::Closed, ActionView::Close { known: true })
        } else {
            let n = (256 * a + b) as usize;
            (Phase::Packet(n), ActionView::ReadPacket(n))
        },
        (Phase::Packet(_), EventView::PacketRead) => (Phase::Header, ActionView::ReadHeader),
        _ => (Phase::Closed, ActionView::Close { known: is_known(phase) }),
    }
}

/// A receiver's connection.
#[derive(Debug)]
pub struct Connection {
    pub phase: Phase,
    /// Where the receiver connects from; a proxy knows better than the socket.
    pub peer_ip: String,
}

impl Connection {
    /// A connection on which nothing has come.
    pub fn new(peer_ip: String) -> (c: Connection)
        ensures
            c.phase == Phase::Greeting,
            c.peer_ip == peer_ip,
    {
        Connection { phase: Phase::Greeting, peer_ip }
    }

    /// Something has happened; the result is what is to be done next.
    pub fn step(&mut self, event: Event) -> (r: Action)
        ensures
            (final(self).phase, r@) == next(old(self).phase, event@),
            final(self).peer_ip@ == (match (old(self).phase, event) {
                (Phase::Greeting, Event::Line(s)) => match proxy_source(s@) {
                    Some(ip) => ip,
                    None => old(self).peer_ip@,
                },
                _ => old(self).peer_ip@,
            }),
    {
        match (self.phase, event) {
            (Phase::Greeting, Event::Line(s)) => {
                let (proxied, source) = read_proxy_line(s.as_str());
                if let Some(ip) = source {
                    self.peer_ip = ip;
                }
                if proxied {
                    self.phase = Phase::Proxied;
                    Action::ReadLine
                } else {
                    self.phase = Phase::Request;
                    Action::ReadRequest(s)
                }
            },
            (Phase::Proxied, Event::Line(s)) => {
                self.phase = Phase::Request;
                Action::ReadRequest(s)
            },
            (Phase::Request, Event::Accepted) => {
                self.phase = Phase::Header;
                Action::ReadHeader
            },
            (Phase::Header, Event::HeaderRead(a, b)) => match packet_len(a, b) {
                Some(n) => {
                    self.phase = Phase::Packet(n);
                    Action::ReadPacket(n)
                },
                None => {
                    self.phase = Phase::Closed;
                    Action::Close { known: true }
                },
            },
            (Phase::Packet(_), Event::PacketRead) => {
                self.phase = Phase::Header;
                Action::ReadHeader
            },
            (Phase::Header, _) | (Phase::Packet(_), _) => {
                self.phase = Phase::Closed;
                Action::Close { known: true }
            },
            _ => {
                self.phase = Phase::Closed;
                Action::Close { known: false }
            },
        }
    }
}

/// A connection that is over stays so.
pub proof fn law_closed_stays_closed(event: EventView)
    ensures
        next(Phase::Closed, event) == (Phase::Closed, ActionView::Close { known: false }),
{
}

/// A packet is read only once a request was accepted, and is never empty.
pub proof fn law_packets_follow_a_request(phase: Phase, event: EventView, n: usize)
    requires
        next(phase, event).1 == ActionView::ReadPacket(n),
    ensures
        is_known(phase),
        0 < n <= 65535,
{
}

/// A receiver becomes known by a request that is accepted, and in no other way.
pub proof fn law_known_by_request(phase: Phase, event: EventView)
    requires
        !is_known(phase),
        is_known(next(phase, event).0),
    ensures
        phase is Request,
        event is Accepted,
{
}

/// A receiver that is known is forgotten when its connection ends.
pub proof fn law_known_receivers_are_forgotten(phase: Phase, event: EventView)
    requires
        is_known(phase),
        next(phase, event).0 is Closed,
    ensures
        next(phase, event).1 == (ActionView::Close { known: true }),
{
}

/// A receiver is served: the line that it greets with is its request, or the next one where a
/// proxy has passed it on; once that is accepted, a header of two bytes comes before each packet,
/// which is as long as the header says.
pub proof fn law_receiver_is_served(line: Seq<char>, a: u8, b: u8, n: usize)
    ensures
        !is_proxy_line(line) ==> next(Phase::Greeting, EventView::Line(line)) == (
            Phase::Request,
            ActionView::ReadRequest(line),
        ),
        is_proxy_line(line) ==> next(Phase::Greeting, EventView::Line(line)) == (
            Phase::Proxied,
            ActionView::ReadLine,
        ),
        next(Phase::Proxied, EventView::Line(line)) == (
            Phase::Request,
            ActionView::ReadRequest(line),
        ),
        next(Phase::Request, EventView::Accepted) == (Phase::Header, ActionView::ReadHeader),
        a > 0 || b > 0 ==> ({
            let (phase, action) = next(Phase::Header, EventView::HeaderRead(a, b));
            phase matches Phase::Packet(len) && len / 256 == a && len % 256 == b && action
                == ActionView::ReadPacket(len)
        }),
        next(Phase::Packet(n), EventView::PacketRead) == (Phase::Header, ActionView::ReadHeader),
{
}

/// A stream ends with a header of zero, with a connection that is lost and with a request that is
/// refused; the receiver is forgotten if it was known, which it is between its first header and
/// the end.
pub proof fn law_connection_ends(phase: Phase, n: usize)
    ensures
        next(Phase::Header, EventView::HeaderRead(0, 0)) == (
            Phase::Closed,
            ActionView::Close { known: true },
        ),
        next(phase, EventView::Lost).0 == Phase::Closed,
        next(Phase::Header, EventView::Lost).1 == (ActionView::Close { known: true }),
        next(Phase::Packet(n), EventView::Lost).1 == (ActionView::Close { known: true }),
        next(Phase::Greeting, EventView::Lost).1 == (ActionView::Close { known: false }),
        next(Phase::Proxied, EventView::Lost).1 == (ActionView::Close { known: false }),
        next(Phase::Request, EventView::Lost).1 == (ActionView::Close { known: false }),
        next(Phase::Request, EventView::Refused) == (
            Phase::Closed,
            ActionView::Close { known: false },
        ),
{
}

} // verus!
