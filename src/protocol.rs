//! The wire vocabulary: `{ "event": "<name>" }` in both directions.

use vstd::prelude::*;

verus! {

/// A decoded wire message: one object with a single string field.
pub struct CookieEvent {
    pub event: String,
}

/// What a client can ask for.
#[derive(Clone, Copy, Debug, PartialEq, Eq, Structural)]
pub enum ClientEvent {
    /// Wait for an opponent, or be paired with the one already waiting.
    Queue,
    /// One click in the game the sender plays in.
    Click,
    /// A name that the protocol does not know.
    Unknown,
}

/// What the server tells a client.
#[derive(Clone, Copy, Debug, PartialEq, Eq, Structural)]
pub enum ServerEvent {
    Connected,
    YouWin,
    YouLost,
}

/// One message to deliver: `event` to the connection `to`.
#[derive(Clone, Copy, Debug, PartialEq, Eq, Structural)]
pub struct Outbound {
    pub to: u64,
    pub event: ServerEvent,
}

/// The kind of event that a wire name stands for.
pub open spec fn client_event_of(name: Seq<char>) -> ClientEvent {
    if name == "queue"@ {
        ClientEvent::Queue
    } else if name == "click"@ {
        ClientEvent::Click
    } else {
        ClientEvent::Unknown
    }
}

/// The wire name of an outbound event.
pub open spec fn server_event_name(e: ServerEvent) -> Seq<char> {
    match e {
        ServerEvent::Connected => "connected"@,
        ServerEvent::YouWin => "you_win"@,
        ServerEvent::YouLost => "you_lost"@,
    }
}

fn literal(s: &str) -> (r: String)
    ensures
        r@ == s@,
{
    broadcast use vstd::string::group_string_axioms;
    s.to_string()
}

impl ClientEvent {
    /// Classifies the `event` field of an inbound message.
    pub fn from_name(name: &str) -> (r: ClientEvent)
        ensures
            r == client_event_of(name@),
    {
        let given = literal(name);
        let queue = literal("queue");
        let click = literal("click");
        proof {
            reveal_strlit("queue");
            reveal_strlit("click");
        }
        if given == queue {
            ClientEvent::Queue
        } else if given == click {
            ClientEvent::Click
        } else {
            ClientEvent::Unknown
        }
    }
}

impl CookieEvent {
    /// The kind of event that this message names.
    pub fn kind(&self) -> (r: ClientEvent)
        ensures
            r == client_event_of(self.event@),
    {
        ClientEvent::from_name(self.event.as_str())
    }
}

impl ServerEvent {
    /// The wire name of this event.
    pub fn name(&self) -> (r: String)
        ensures
            r@ == server_event_name(*self),
    {
        proof {
            reveal_strlit("connected");
            reveal_strlit("you_win");
            reveal_strlit("you_lost");
        }
        match self {
            ServerEvent::Connected => literal("connected"),
            ServerEvent::YouWin => literal("you_win"),
            ServerEvent::YouLost => literal("you_lost"),
        }
    }

    /// The wire message that carries this event.
    pub fn to_cookie_event(&self) -> (r: CookieEvent)
        ensures
            r.event@ == server_event_name(*self),
    {
        CookieEvent { event: self.name() }
    }
}

} // verus!
