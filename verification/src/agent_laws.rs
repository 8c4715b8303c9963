//! What an agent does about each message of its peer and each word of its client.

use crate::peer::Status;
use crate::peer_agent::{AgentAction, AgentEvent, HashMismatch, PeerAgent};
use crate::wire::law_be_bytes_of_be32;
use crate::wire_laws::number_at;
use vstd::prelude::*;

verus! {

/// An agent starts exactly where the peer's answer names the torrent in its bytes
/// 28 to 48. It then runs, and knows nothing of the peer.
pub proof fn law_agent_starts_on_right_torrent(
    response: [u8; 68],
    info_hash: [u8; 20],
    r: Result<PeerAgent, HashMismatch>,
)
    requires
        call_ensures(PeerAgent::new, (&response, &info_hash), r),
    ensures
        r is Ok <==> forall|i: int| 0 <= i < 20 ==> #[trigger] info_hash@[i] == response@[28 + i],
        r matches Ok(agent) ==> agent@.running && agent@.status is None && agent@.bitfield is None,
{
    let named = response@.subrange(28, 48);
    if forall|i: int| 0 <= i < 20 ==> #[trigger] info_hash@[i] == response@[28 + i] {
        assert(named =~= info_hash@);
    }
    if r is Ok {
        assert forall|i: int| 0 <= i < 20 implies #[trigger] info_hash@[i] == response@[28 + i] by {
            assert(named[i] == response@[28 + i]);
        }
    }
}

/// What an agent knows can be asked of it.
pub proof fn law_agent_tells_what_it_knows(
    agent: PeerAgent,
    running: bool,
    status: Option<Status>,
    bitfield: Option<&[u8]>,
)
    requires
        call_ensures(PeerAgent::is_running, (&agent,), running),
        call_ensures(PeerAgent::status, (&agent,), status),
        call_ensures(PeerAgent::bitfield, (&agent,), bitfield),
    ensures
        running == agent@.running,
        status == agent@.status,
        bitfield is Some <==> agent@.bitfield is Some,
        bitfield matches Some(bytes) ==> agent@.bitfield == Some(bytes@),
{
}

/// A message of the kind 0 is a choke, one of the kind 1 ends it: the client is
/// told, and nothing else changes.
pub proof fn law_agent_tells_status(
    agent: &mut PeerAgent,
    event: AgentEvent,
    action: AgentAction,
)
    requires
        call_ensures(PeerAgent::handle, (agent, event), action),
        event matches AgentEvent::Received(m) && (m.kind == 0 || m.kind == 1),
    ensures
        event matches AgentEvent::Received(m) && (if m.kind == 0 {
            action == AgentAction::PublishStatus(Status::Choked) && final(agent)@.status == Some(
                Status::Choked,
            )
        } else {
            action == AgentAction::PublishStatus(Status::Unchoked) && final(agent)@.status == Some(
                Status::Unchoked,
            )
        }),
        final(agent)@.bitfield == old(agent)@.bitfield,
        final(agent)@.running == old(agent)@.running,
{
    if let AgentEvent::Received(m) = event {
        assert(m@.kind == m.kind);
        assert(action is PublishStatus);
    }
}

/// A message of the kind 5 holds the pieces that the peer has: the client is
/// told all of it, and nothing else changes.
pub proof fn law_agent_tells_bit_field(
    agent: &mut PeerAgent,
    event: AgentEvent,
    action: AgentAction,
)
    requires
        call_ensures(PeerAgent::handle, (agent, event), action),
        event matches AgentEvent::Received(m) && m.kind == 5,
    ensures
        event matches AgentEvent::Received(m) && (action matches AgentAction::PublishBitfield(bytes)
            && bytes@ == m.content@ && final(agent)@.bitfield == Some(m.content@)),
        final(agent)@.status == old(agent)@.status,
        final(agent)@.running == old(agent)@.running,
{
    if let AgentEvent::Received(m) = event {
        assert(m@.kind == m.kind);
        assert(m@.content == m.content@);
        assert(action is PublishBitfield);
    }
}

/// A message of the kind 7 holds a block: four bytes for the piece, four for the
/// offset, and the bytes. All of it is handed to the client, and nothing changes.
pub proof fn law_agent_delivers_block(
    agent: &mut PeerAgent,
    event: AgentEvent,
    action: AgentAction,
)
    requires
        call_ensures(PeerAgent::handle, (agent, event), action),
        event matches AgentEvent::Received(m) && m.kind == 7 && m.content@.len() >= 8,
    ensures
        event matches AgentEvent::Received(m) && (action matches AgentAction::Deliver(
            piece,
            offset,
            data,
        ) && piece == number_at(m.content@, 0) && offset == number_at(m.content@, 4) && data@
            == m.content@.skip(8)),
        final(agent)@ == old(agent)@,
{
    if let AgentEvent::Received(m) = event {
        let c = m.content@;
        assert(m@.kind == m.kind);
        assert(m@.content == c);
        let (p, o) = (c.subrange(0, 4), c.subrange(4, 8));
        assert(p[0] == c[0] && p[1] == c[1] && p[2] == c[2] && p[3] == c[3]);
        assert(o[0] == c[4] && o[1] == c[5] && o[2] == c[6] && o[3] == c[7]);
        law_be_bytes_of_be32(p);
        law_be_bytes_of_be32(o);
        assert(action is Deliver);
    }
}

/// A message of any other kind and a frame that cannot be read are passed over,
/// and nothing changes.
pub proof fn law_agent_passes_over_the_unknown(
    agent: &mut PeerAgent,
    event: AgentEvent,
    action: AgentAction,
)
    requires
        call_ensures(PeerAgent::handle, (agent, event), action),
        event is BadFrame || (event matches AgentEvent::Received(m) && m.kind != 0 && m.kind != 1
            && m.kind != 5 && m.kind != 7),
    ensures
        event is BadFrame ==> action is IgnoreFrame,
        event matches AgentEvent::Received(m) ==> action == AgentAction::IgnoreKind(m.kind),
        final(agent)@ == old(agent)@,
{
    if let AgentEvent::Received(m) = event {
        assert(m@.kind == m.kind);
        assert(action is IgnoreKind);
    }
}

/// A message of the client is sent to the peer as it is, and nothing changes.
pub proof fn law_agent_sends_commands(
    agent: &mut PeerAgent,
    event: AgentEvent,
    action: AgentAction,
)
    requires
        call_ensures(PeerAgent::handle, (agent, event), action),
        event is Command,
    ensures
        event matches AgentEvent::Command(m) && (action matches AgentAction::Send(sent)
            && sent.length@ == m.length@ && sent.kind == m.kind && sent.content@ == m.content@),
        final(agent)@ == old(agent)@,
{
    if let AgentEvent::Command(m) = event {
        assert(action is Send);
        if let AgentAction::Send(sent) = action {
            assert(sent@ == m@);
            assert(sent@.length == sent.length@ && m@.length == m.length@);
            assert(sent@.kind == sent.kind && m@.kind == m.kind);
            assert(sent@.content == sent.content@ && m@.content == m.content@);
        }
    }
}

/// An agent stops where either side is gone, and then alone; it keeps what it
/// knows.
pub proof fn law_agent_stops_with_either_side(
    agent: &mut PeerAgent,
    event: AgentEvent,
    action: AgentAction,
)
    requires
        call_ensures(PeerAgent::handle, (agent, event), action),
        old(agent)@.running,
    ensures
        action is Stop <==> event is PeerClosed || event is CommandsClosed,
        final(agent)@.running <==> !(event is PeerClosed || event is CommandsClosed),
        event is PeerClosed || event is CommandsClosed ==> final(agent)@.status
            == old(agent)@.status && final(agent)@.bitfield == old(agent)@.bitfield,
{
}

} // verus!
