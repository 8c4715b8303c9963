//! The agent of one peer connection: what it does about each event.

use crate::peer::{Handshake, Message, PeerMessage, Status};
use crate::wire::{be32, be_bytes, law_be32_of_be_bytes, read_be32, same20};
use vstd::prelude::*;

verus! {

/// What can happen to an agent.
#[derive(Debug)]
pub enum AgentEvent {
    /// The peer sent a message.
    Received(PeerMessage),
    /// The peer sent a frame that cannot be read.
    BadFrame,
    /// The peer closed the connection.
    PeerClosed,
    /// The client has a message for the peer.
    Command(PeerMessage),
    /// The client has no further messages.
    CommandsClosed,
}

/// What an agent has to do.
#[derive(Debug)]
pub enum AgentAction {
    /// Tell the client whether the peer takes requests.
    PublishStatus(Status),
    /// Tell the client which pieces the peer has.
    PublishBitfield(Vec<u8>),
    /// Hand a block to the client: the piece, the offset in it and the bytes.
    Deliver(usize, usize, Vec<u8>),
    /// Send a message to the peer.
    Send(PeerMessage),
    /// Nothing; the peer sent a message of an unknown kind.
    IgnoreKind(u8),
    /// Nothing; the peer sent a frame that cannot be read.
    IgnoreFrame,
    /// End the connection.
    Stop,
}

/// What an `AgentEvent` stands for.
pub enum Event {
    Received(Message),
    BadFrame,
    PeerClosed,
    Command(Message),
    CommandsClosed,
}

/// What an `AgentAction` stands for.
pub enum Action {
    PublishStatus(Status),
    PublishBitfield(Seq<u8>),
    Deliver(int, int, Seq<u8>),
    Send(Message),
    IgnoreKind(u8),
    IgnoreFrame,
    Stop,
}

impl View for AgentEvent {
    type V = Event;

    open spec fn view(&self) -> Event {
        match self {
            AgentEvent::Received(m) => Event::Received(m@),
            AgentEvent::BadFrame => Event::BadFrame,
            AgentEvent::PeerClosed => Event::PeerClosed,
            AgentEvent::Command(m) => Event::Command(m@),
            AgentEvent::CommandsClosed => Event::CommandsClosed,
        }
    }
}

impl View for AgentAction {
    type V = Action;

    open spec fn view(&self) -> Action {
        match self {
            AgentAction::PublishStatus(status) => Action::PublishStatus(*status),
            AgentAction::PublishBitfield(bytes) => Action::PublishBitfield(bytes@),
            AgentAction::Deliver(piece, offset, data) => Action::Deliver(
                *piece as int,
                *offset as int,
                data@,
            ),
            AgentAction::Send(m) => Action::Send(m@),
            AgentAction::IgnoreKind(kind) => Action::IgnoreKind(*kind),
            AgentAction::IgnoreFrame => Action::IgnoreFrame,
            AgentAction::Stop => Action::Stop,
        }
    }
}

/// What an agent knows of its peer, and whether it still runs.
pub struct AgentState {
    pub status: Option<Status>,
    pub bitfield: Option<Seq<u8>>,
    pub running: bool,
}

impl Event {
    /// A block message is long enough to hold its two numbers.
    pub open spec fn readable(self) -> bool {
        self matches Event::Received(m) ==> m.kind == 7 ==> m.content.len() >= 8
    }

    /// What is to be done about the event.
    pub open spec fn action(self) -> Action {
        match self {
            Event::Received(m) => if m.kind == 0 {
                Action::PublishStatus(Status::Choked)
            } else if m.kind == 1 {
                Action::PublishStatus(Status::Unchoked)
            } else if m.kind == 5 {
                Action::PublishBitfield(m.content)
            } else if m.kind == 7 {
                Action::Deliver(
                    be32(m.content.subrange(0, 4)),
                    be32(m.content.subrange(4, 8)),
                    m.content.skip(8),
                )
            } else {
                Action::IgnoreKind(m.kind)
            },
            Event::BadFrame => Action::IgnoreFrame,
            Event::PeerClosed => Action::Stop,
            Event::Command(m) => Action::Send(m),
            Event::CommandsClosed => Action::Stop,
        }
    }
}

impl AgentState {
    /// The state of an agent whose handshake was just answered.
    pub open spec fn initial() -> AgentState {
        AgentState { status: None, bitfield: None, running: true }
    }

    /// The state after an event.
    pub open spec fn after(self, event: Event) -> AgentState {
        match event.action() {
            Action::PublishStatus(status) => AgentState { status: Some(status), ..self },
            Action::PublishBitfield(bytes) => AgentState { bitfield: Some(bytes), ..self },
            Action::Stop => AgentState { running: false, ..self },
            _ => self,
        }
    }
}

/// The state of an agent after a history of events; none counts once it has
/// stopped.
pub open spec fn state_after(history: Seq<Event>) -> AgentState
    decreases history.len(),
{
    if history.len() == 0 {
        AgentState::initial()
    } else {
        let before = state_after(history.drop_last());
        if before.running {
            before.after(history.last())
        } else {
            before
        }
    }
}

/// The agent of one peer connection.
#[derive(Debug)]
pub struct PeerAgent {
    status: Option<Status>,
    bitfield: Option<Vec<u8>>,
    running: bool,
}

impl View for PeerAgent {
    type V = AgentState;

    closed spec fn view(&self) -> AgentState {
        AgentState {
            status: self.status,
            bitfield: match self.bitfield {
                Some(bytes) => Some(bytes@),
                None => None,
            },
            running: self.running,
        }
    }
}

/// A peer that answered for another torrent.
#[derive(Debug, Clone, Copy, PartialEq, Eq, Structural)]
pub struct HashMismatch;

impl HashMismatch {
    pub fn message(&self) -> (text: &'static str)
        ensures
            text@ == "info_hash does not match"@,
    {
        "info_hash does not match"
    }
}

impl PeerAgent {
    /// The agent of a connection on which the peer answered the handshake with
    /// `response`, where that names the torrent of `info_hash`.
    pub fn new(response: &[u8; 68], info_hash: &[u8; 20]) -> (r: Result<Self, HashMismatch>)
        ensures
            r is Ok <==> response@.subrange(28, 48) == info_hash@,
            r matches Ok(agent) ==> agent@ == AgentState::initial(),
    {
        let response = Handshake::from_bytes(response);
        if same20(&response.info_hash, info_hash) {
            Ok(PeerAgent { status: None, bitfield: None, running: true })
        } else {
            Err(HashMismatch)
        }
    }

    pub fn is_running(&self) -> (b: bool)
        ensures
            b == self@.running,
    {
        self.running
    }

    pub fn status(&self) -> (status: Option<Status>)
        ensures
            status == self@.status,
    {
        self.status
    }

    /// The bit field of the peer, once it sent one.
    pub fn bitfield(&self) -> (bytes: Option<&[u8]>)
        ensures
            match bytes {
                Some(b) => self@.bitfield == Some(b@),
                None => self@.bitfield is None,
            },
    {
        match &self.bitfield {
            Some(bytes) => Some(bytes.as_slice()),
            None => None,
        }
    }

    /// Takes note of an event, and says what to do about it.
    pub fn handle(&mut self, event: AgentEvent) -> (action: AgentAction)
        requires
            old(self)@.running,
            event@.readable(),
        ensures
            action@ == event@.action(),
            final(self)@ == old(self)@.after(event@),
    {
        match event {
            AgentEvent::Received(m) => match m.kind {
                0 => {
                    self.status = Some(Status::Choked);
                    AgentAction::PublishStatus(Status::Choked)
                },
                1 => {
                    self.status = Some(Status::Unchoked);
                    AgentAction::PublishStatus(Status::Unchoked)
                },
                5 => {
                    let bytes = m.content.clone();
                    assert(bytes@ =~= m.content@);
                    self.bitfield = Some(bytes);
                    AgentAction::PublishBitfield(m.content)
                },
                7 => {
                    let content = m.content;
                    let piece_i = [content[0], content[1], content[2], content[3]];
                    let offset = [content[4], content[5], content[6], content[7]];
                    assert(piece_i@ =~= content@.subrange(0, 4));
                    assert(offset@ =~= content@.subrange(4, 8));
                    let data = vstd::slice::slice_to_vec(
                        vstd::slice::slice_subrange(content.as_slice(), 8, content.len()),
                    );
                    assert(data@ =~= content@.skip(8));
                    AgentAction::Deliver(
                        read_be32(&piece_i) as usize,
                        read_be32(&offset) as usize,
                        data,
                    )
                },
                kind => AgentAction::IgnoreKind(kind),
            },
            AgentEvent::BadFrame => AgentAction::IgnoreFrame,
            AgentEvent::PeerClosed => {
                self.running = false;
                AgentAction::Stop
            },
            AgentEvent::Command(m) => AgentAction::Send(m),
            AgentEvent::CommandsClosed => {
                self.running = false;
                AgentAction::Stop
            },
        }
    }
}

/// Whether an event is the peer's word on choking.
pub open spec fn speaks_of_choking(event: Event) -> bool {
    event.action() is PublishStatus
}

/// The status is unknown while the peer has not said anything on choking.
pub proof fn law_status_is_unknown_at_first(history: Seq<Event>)
    requires
        forall|i: int| 0 <= i < history.len() ==> !speaks_of_choking(#[trigger] history[i]),
    ensures
        state_after(history).status is None,
    decreases history.len(),
{
    if history.len() > 0 {
        let earlier = history.drop_last();
        assert forall|i: int| 0 <= i < earlier.len() implies !speaks_of_choking(
            #[trigger] earlier[i],
        ) by {
            assert(earlier[i] == history[i]);
        }
        law_status_is_unknown_at_first(earlier);
        assert(!speaks_of_choking(history[history.len() - 1]));
    }
}

/// The status of a running agent is what the peer last said on choking.
pub proof fn law_status_is_the_last_word(history: Seq<Event>, i: int)
    requires
        state_after(history).running,
        0 <= i < history.len(),
        speaks_of_choking(history[i]),
        forall|j: int| i < j < history.len() ==> !speaks_of_choking(#[trigger] history[j]),
    ensures
        state_after(history).status == Some(history[i].action()->PublishStatus_0),
    decreases history.len(),
{
    let earlier = history.drop_last();
    assert(state_after(earlier).running);
    if i < earlier.len() {
        assert forall|j: int| i < j < earlier.len() implies !speaks_of_choking(
            #[trigger] earlier[j],
        ) by {
            assert(earlier[j] == history[j]);
        }
        law_status_is_the_last_word(earlier, i);
        assert(!speaks_of_choking(history[history.len() - 1]));
    }
}

/// Whether an event is the peer's word on its pieces.
pub open spec fn speaks_of_pieces(event: Event) -> bool {
    event.action() is PublishBitfield
}

/// The bit field is unknown while the peer has not sent any.
pub proof fn law_bitfield_is_unknown_at_first(history: Seq<Event>)
    requires
        forall|i: int| 0 <= i < history.len() ==> !speaks_of_pieces(#[trigger] history[i]),
    ensures
        state_after(history).bitfield is None,
    decreases history.len(),
{
    if history.len() > 0 {
        let earlier = history.drop_last();
        assert forall|i: int| 0 <= i < earlier.len() implies !speaks_of_pieces(
            #[trigger] earlier[i],
        ) by {
            assert(earlier[i] == history[i]);
        }
        law_bitfield_is_unknown_at_first(earlier);
        assert(!speaks_of_pieces(history[history.len() - 1]));
    }
}

/// The bit field of a running agent is the last one that the peer sent.
pub proof fn law_bitfield_is_the_last_word(history: Seq<Event>, i: int)
    requires
        state_after(history).running,
        0 <= i < history.len(),
        speaks_of_pieces(history[i]),
        forall|j: int| i < j < history.len() ==> !speaks_of_pieces(#[trigger] history[j]),
    ensures
        state_after(history).bitfield == Some(history[i].action()->PublishBitfield_0),
    decreases history.len(),
{
    let earlier = history.drop_last();
    assert(state_after(earlier).running);
    if i < earlier.len() {
        assert forall|j: int| i < j < earlier.len() implies !speaks_of_pieces(
            #[trigger] earlier[j],
        ) by {
            assert(earlier[j] == history[j]);
        }
        law_bitfield_is_the_last_word(earlier, i);
        assert(!speaks_of_pieces(history[history.len() - 1]));
    }
}

/// An agent that stopped stays as it is.
pub proof fn law_stopped_for_good(history: Seq<Event>, later: Seq<Event>)
    requires
        !state_after(history).running,
    ensures
        state_after(history + later) == state_after(history),
    decreases later.len(),
{
    if later.len() == 0 {
        assert(history + later =~= history);
    } else {
        law_stopped_for_good(history, later.drop_last());
        assert((history + later).drop_last() =~= history + later.drop_last());
    }
}

/// A block message is handed to the client with the piece, the offset and the
/// bytes that the peer put into it.
pub proof fn law_block_is_delivered(length: Seq<u8>, piece: int, offset: int, data: Seq<u8>)
    requires
        0 <= piece <= u32::MAX,
        0 <= offset <= u32::MAX,
    ensures
        ({
            let block = Event::Received(
                Message { length, kind: 7, content: be_bytes(piece) + be_bytes(offset) + data },
            );
            block.readable() && block.action() == Action::Deliver(piece, offset, data)
        }),
{
    let content = be_bytes(piece) + be_bytes(offset) + data;
    law_be32_of_be_bytes(piece);
    law_be32_of_be_bytes(offset);
    assert(content.subrange(0, 4) =~= be_bytes(piece));
    assert(content.subrange(4, 8) =~= be_bytes(offset));
    assert(content.skip(8) =~= data);
}

} // verus!
