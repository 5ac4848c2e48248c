//! The per-connection protocol state machine: room negotiation, identity
//! negotiation, the atomic welcome-and-join step, and the command loop's
//! dispatch. All decisions are pure functions from the received packet and
//! the room state; the surrounding transport loop performs the sends.

use vstd::prelude::*;

use crate::ids::{word_digest, Identity, SessionId};
use crate::packets::{
    Cmd, IdentifyCmd, IdentifyRpl, NickCmd, NickNtf, NickRpl, Ntf, Packet, RoomCmd, RoomRpl,
    SendCmd, SendNtf, SendRpl, Session, WhoCmd, WhoRpl,
};
use crate::room::{ids_except, ids_of, send_post, sessions_except, Room};
use crate::validate::{
    check_content, check_identity, check_nick, check_room, rejection_of, valid_content,
    valid_identity, valid_nick, valid_room,
};

verus! {

/// What the room negotiation does with one received packet.
pub enum RoomNegotiation {
    /// The name was rejected; reply and stay in room negotiation.
    Retry { reply: Packet },
    /// The name was accepted; reply and move to identity negotiation.
    Accept { reply: Packet, name: String },
    /// Any other packet, or a closed connection, ends the session.
    Fatal,
}

/// What the identity negotiation does with one received packet.
pub enum IdentityNegotiation {
    /// The identity or nick was rejected; reply and stay.
    Retry { reply: Packet },
    /// Both were accepted; the session is built and the correlation id of
    /// the command is kept for the welcome reply.
    Accept { id: u64, session: Session },
    /// Any other packet, or a closed connection, ends the session.
    Fatal,
}

/// One step of room negotiation: only a room command is accepted, its name
/// validated; an invalid name is answered and the negotiation stays in state.
pub fn negotiate_room(packet: Option<Packet>) -> (r: RoomNegotiation)
    ensures
        packet matches Some(Packet::Cmd { id, cmd: Cmd::Room(c) }) ==> {
            &&& valid_room(c.name@) ==> (r matches RoomNegotiation::Accept { reply, name } && reply
                == (Packet::Rpl { id, rpl: Rpl::Room(RoomRpl::Success) }) && name@ == c.name@)
            &&& !valid_room(c.name@) ==> (r matches RoomNegotiation::Retry { reply }
                && (reply matches Packet::Rpl {
                id: rid,
                rpl: Rpl::Room(RoomRpl::InvalidRoom { reason }),
            } && rid == id && reason@ == rejection_of(
                crate::validate::bytes_of(c.name@),
                crate::validate::MAX_ROOM_LEN as nat,
            )))
        },
        !(packet matches Some(Packet::Cmd { id, cmd: Cmd::Room(c) })) ==> r is Fatal,
{
    match packet {
        Some(Packet::Cmd { id, cmd: Cmd::Room(RoomCmd { name }) }) => {
            match check_room(name.as_str()) {
                Some(reason) => RoomNegotiation::Retry {
                    reply: Packet::rpl(id, Rpl::Room(RoomRpl::InvalidRoom { reason })),
                },
                None => RoomNegotiation::Accept {
                    reply: Packet::rpl(id, Rpl::Room(RoomRpl::Success)),
                    name,
                },
            }
        },
        _ => RoomNegotiation::Fatal,
    }
}

/// One step of identity negotiation: only an identify command is accepted,
/// its identity checked before its nick; the session id is derived from the
/// fresh random seed.
pub fn negotiate_identity(packet: Option<Packet>, seed: u64) -> (r: IdentityNegotiation)
    ensures
        packet matches Some(Packet::Cmd { id, cmd: Cmd::Identify(c) }) ==> {
            &&& valid_identity(c.identity@) && valid_nick(c.nick@)
                ==> (r matches IdentityNegotiation::Accept { id: rid, session } && rid == id
                && session.id == (SessionId { 0: word_digest(seed) }) && session.nick@ == c.nick@
                && session.identity == (Identity {
                0: crate::ids::digest_of(crate::validate::bytes_of(c.identity@)),
            }))
            &&& !(valid_identity(c.identity@) && valid_nick(c.nick@))
                ==> (r matches IdentityNegotiation::Retry { reply }
                && (reply matches Packet::Rpl {
                id: rid,
                rpl: Rpl::Identify(IdentifyRpl::InvalidNick { reason }),
            } && rid == id && reason@ == (if !valid_identity(c.identity@) {
                rejection_of(
                    crate::validate::bytes_of(c.identity@),
                    crate::validate::MAX_IDENTITY_LEN as nat,
                )
            } else {
                rejection_of(
                    crate::validate::bytes_of(c.nick@),
                    crate::validate::MAX_NICK_LEN as nat,
                )
            })))
        },
        !(packet matches Some(Packet::Cmd { id, cmd: Cmd::Identify(c) })) ==> r is Fatal,
{
    match packet {
        Some(Packet::Cmd { id, cmd: Cmd::Identify(IdentifyCmd { nick, identity }) }) => {
            if let Some(reason) = check_identity(identity.as_str()) {
                return IdentityNegotiation::Retry {
                    reply: Packet::rpl(id, Rpl::Identify(IdentifyRpl::InvalidNick { reason })),
                };
            }
            if let Some(reason) = check_nick(nick.as_str()) {
                return IdentityNegotiation::Retry {
                    reply: Packet::rpl(id, Rpl::Identify(IdentifyRpl::InvalidNick { reason })),
                };
            }
            let session = Session {
                id: SessionId::of_u64(seed),
                nick,
                identity: Identity::of(identity.as_str().as_bytes()),
            };
            IdentityNegotiation::Accept { id, session }
        },
        _ => IdentityNegotiation::Fatal,
    }
}

use crate::packets::Rpl;

/// The successful identify reply: the new member's own session, the sessions
/// of all current members, and the room's last message id at this instant.
pub fn welcome(id: u64, you: Session, room: &Room) -> (r: Packet)
    ensures
        r matches Packet::Rpl { id: rid, rpl: Rpl::Identify(IdentifyRpl::Success {
            you: y,
            others,
            last_message,
        }) } && rid == id && y == you && others@ == room.clients@ && last_message
            == room.last_message,
{
    let mut others: Vec<Session> = Vec::new();
    let mut i: usize = 0;
    while i < room.clients.len()
        invariant
            i <= room.clients@.len(),
            others@ == room.clients@.take(i as int),
        decreases room.clients@.len() - i,
    {
        others.push(room.clients[i].duplicate());
        proof {
            assert(others@ =~= room.clients@.take(i as int + 1));
        }
        i = i + 1;
    }
    proof {
        assert(others@ =~= room.clients@);
    }
    Packet::rpl(
        id,
        Rpl::Identify(IdentifyRpl::Success { you, others, last_message: room.last_message }),
    )
}

/// The atomic welcome-and-join: under one exclusive hold of the room, build
/// the welcome reply for the new client from the state before the join, then
/// announce and insert the new member. The new client therefore sees no
/// notification older than the reply's last message id, and every existing
/// member sees the join exactly once, before anything later about the new
/// member.
pub fn greet(room: &mut Room, id: u64, session: Session) -> (r: (Packet, Ntf, Vec<SessionId>))
    requires
        old(room).wf(),
        !old(room).spec_has_client(session.id),
    ensures
        final(room).wf(),
        final(room).clients@ == old(room).clients@.push(session),
        final(room).name@ == old(room).name@,
        final(room).last_message == old(room).last_message,
        final(room).last_timestamp == old(room).last_timestamp,
        r.0 matches Packet::Rpl { id: rid, rpl: Rpl::Identify(IdentifyRpl::Success {
            you,
            others,
            last_message,
        }) } && rid == id && you == session && others@ == old(room).clients@ && last_message
            == old(room).last_message,
        r.1 == Ntf::Join(crate::packets::JoinNtf { who: session }),
        r.2@ == ids_of(old(room).clients@),
{
    let reply = welcome(id, session.duplicate(), room);
    let (ntf, recipients) = room.join(session);
    (reply, ntf, recipients)
}

/// A member's protocol violations in the command loop: each ends the
/// session.
#[derive(Clone, Copy, PartialEq, Eq, Structural, Debug)]
pub enum ProtocolError {
    /// A room command after negotiation.
    UnexpectedRoom,
    /// An identify command after negotiation.
    UnexpectedIdentify,
    /// A reply sent by the client.
    UnexpectedRpl,
    /// A notification sent by the client.
    UnexpectedNtf,
}

/// What one handled command produces: the correlated reply to the caller,
/// and possibly one notification to broadcast to the listed recipients.
pub struct SessionOutput {
    pub reply: Packet,
    pub broadcast: Option<(Ntf, Vec<SessionId>)>,
}

/// The server's side of one running session: its view of the client's
/// session after negotiation.
pub struct ServerSession {
    pub session: Session,
}

impl ServerSession {
    /// The session agrees with the room's record for its id.
    pub open spec fn in_room(self, room: Room) -> bool {
        &&& room.spec_has_client(self.session.id)
        &&& room.spec_client(self.session.id) == self.session
    }

    /// Handles a nick command: an invalid nick is only answered; a valid one
    /// updates the member and is announced to everyone else.
    pub fn handle_nick(&mut self, room: &mut Room, id: u64, cmd: NickCmd) -> (r: SessionOutput)
        requires
            old(room).wf(),
            old(self).in_room(*old(room)),
        ensures
            final(room).wf(),
            final(self).in_room(*final(room)),
            final(self).session.id == old(self).session.id,
            final(self).session.identity == old(self).session.identity,
            !valid_nick(cmd.nick@) ==> {
                &&& *final(room) == *old(room)
                &&& *final(self) == *old(self)
                &&& r.reply matches Packet::Rpl {
                    id: rid,
                    rpl: Rpl::Nick(NickRpl::InvalidNick { reason }),
                } && rid == id && reason@ == rejection_of(
                    crate::validate::bytes_of(cmd.nick@),
                    crate::validate::MAX_NICK_LEN as nat,
                )
                &&& r.broadcast is None
            },
            valid_nick(cmd.nick@) ==> {
                &&& final(self).session.nick@ == cmd.nick@
                &&& r.reply matches Packet::Rpl { id: rid, rpl: Rpl::Nick(NickRpl::Success {
                    you,
                }) } && rid == id && you == final(self).session
                &&& r.broadcast matches Some((ntf, recipients)) && ntf == Ntf::Nick(
                    NickNtf { who: final(self).session },
                ) && recipients@ == ids_except(final(room).clients@, old(self).session.id)
                &&& exists|i: int|
                    0 <= i < old(room).clients@.len() && (#[trigger] old(room).clients@[i]).id
                        == old(self).session.id && final(room).clients@
                        == old(room).clients@.update(
                        i,
                        Session { nick: cmd.nick, ..old(room).clients@[i] },
                    )
                &&& final(room).last_message == old(room).last_message
                &&& final(room).last_timestamp == old(room).last_timestamp
            },
    {
        if let Some(reason) = check_nick(cmd.nick.as_str()) {
            return SessionOutput {
                reply: Packet::rpl(id, Rpl::Nick(NickRpl::InvalidNick { reason })),
                broadcast: None,
            };
        }
        self.session = Session {
            id: self.session.id,
            nick: cmd.nick.clone(),
            identity: self.session.identity,
        };
        let reply = Packet::rpl(id, Rpl::Nick(NickRpl::Success { you: self.session.duplicate() }));
        let (ntf, recipients) = room.nick(self.session.id, cmd.nick);
        proof {
            let sid = old(self).session.id;
            let i = choose|i: int|
                0 <= i < old(room).clients@.len() && (#[trigger] old(room).clients@[i]).id == sid
                    && room.clients@ == old(room).clients@.update(
                    i,
                    Session { nick: cmd.nick, ..old(room).clients@[i] },
                ) && ntf == Ntf::Nick(NickNtf { who: room.clients@[i] });
            let j = choose|j: int|
                0 <= j < old(room).clients@.len() && (#[trigger] old(room).clients@[j]).id == sid;
            assert(j == i);
            assert(old(room).clients@[i] == old(self).session);
            assert(room.clients@[i] == self.session);
            let k = choose|k: int|
                0 <= k < room.clients@.len() && (#[trigger] room.clients@[k]).id == sid;
            assert(k == i);
            assert(room.spec_client(sid) == self.session);
        }
        SessionOutput { reply, broadcast: Some((ntf, recipients)) }
    }

    /// Handles a send command: invalid content is only answered, and the room
    /// is left untouched; valid content extends the room's history, is
    /// announced to everyone but the sender, and is returned to the sender in
    /// the correlated reply.
    pub fn handle_send(&mut self, room: &mut Room, id: u64, cmd: SendCmd) -> (r: SessionOutput)
        requires
            old(room).wf(),
            old(self).in_room(*old(room)),
            old(room).last_timestamp < u128::MAX,
        ensures
            final(room).wf(),
            *final(self) == *old(self),
            final(self).in_room(*final(room)),
            !valid_content(cmd.content@) ==> {
                &&& *final(room) == *old(room)
                &&& r.reply matches Packet::Rpl {
                    id: rid,
                    rpl: Rpl::Send(SendRpl::InvalidContent { reason }),
                } && rid == id && reason@ == rejection_of(
                    crate::validate::bytes_of(cmd.content@),
                    crate::validate::MAX_CONTENT_LEN as nat,
                )
                &&& r.broadcast is None
            },
            valid_content(cmd.content@) ==> (r.reply matches Packet::Rpl {
                id: rid,
                rpl: Rpl::Send(SendRpl::Success { message }),
            } && rid == id && (r.broadcast matches Some((ntf, recipients)) && ntf == Ntf::Send(
                SendNtf { message },
            ) && send_post(
                *old(room),
                *final(room),
                old(self).session,
                cmd.parent,
                cmd.content@,
                message,
                recipients@,
            ))),
    {
        if let Some(reason) = check_content(cmd.content.as_str()) {
            return SessionOutput {
                reply: Packet::rpl(id, Rpl::Send(SendRpl::InvalidContent { reason })),
                broadcast: None,
            };
        }
        let ghost pre_room = *room;
        let (message, recipients) = room.send(self.session.id, cmd.parent, cmd.content);
        proof {
            let sid = old(self).session.id;
            let j = choose|j: int|
                0 <= j < pre_room.clients@.len() && (#[trigger] pre_room.clients@[j]).id == sid;
            let k = choose|k: int|
                0 <= k < room.clients@.len() && (#[trigger] room.clients@[k]).id == sid;
            assert(room.clients@ == pre_room.clients@);
            assert(pre_room.spec_client(sid) == old(self).session);
            assert(room.spec_client(sid) == old(self).session);
        }
        let ntf = Ntf::Send(SendNtf { message: message.duplicate() });
        let reply = Packet::rpl(id, Rpl::Send(SendRpl::Success { message }));
        SessionOutput { reply, broadcast: Some((ntf, recipients)) }
    }

    /// Handles a who command: a snapshot of the caller's session and of all
    /// other members, with no broadcast.
    pub fn handle_who(&self, room: &Room, id: u64, cmd: WhoCmd) -> (r: SessionOutput)
        requires
            room.wf(),
            self.in_room(*room),
        ensures
            r.reply matches Packet::Rpl { id: rid, rpl: Rpl::Who(w) } && rid == id && w.you
                == self.session && w.others@ == sessions_except(room.clients@, self.session.id),
            r.broadcast is None,
    {
        let (you, others) = room.who(self.session.id);
        SessionOutput { reply: Packet::rpl(id, Rpl::Who(WhoRpl { you, others })), broadcast: None }
    }

    /// Dispatches one packet of the command loop. Only nick, send and who
    /// commands are accepted here; a room or identify command, or any reply
    /// or notification from the client, is a protocol violation that ends the
    /// session, leaving the room untouched.
    pub fn handle_packet(&mut self, room: &mut Room, packet: Packet) -> (r: Result<
        SessionOutput,
        ProtocolError,
    >)
        requires
            old(room).wf(),
            old(self).in_room(*old(room)),
            old(room).last_timestamp < u128::MAX,
        ensures
            final(room).wf(),
            final(self).in_room(*final(room)),
            r is Err ==> *final(room) == *old(room) && *final(self) == *old(self),
            packet matches Packet::Cmd { id, cmd: Cmd::Room(..) } ==> r == Result::<
                SessionOutput,
                ProtocolError,
            >::Err(ProtocolError::UnexpectedRoom),
            packet matches Packet::Cmd { id, cmd: Cmd::Identify(..) } ==> r == Result::<
                SessionOutput,
                ProtocolError,
            >::Err(ProtocolError::UnexpectedIdentify),
            packet matches Packet::Rpl { .. } ==> r == Result::<
                SessionOutput,
                ProtocolError,
            >::Err(ProtocolError::UnexpectedRpl),
            packet matches Packet::Ntf { .. } ==> r == Result::<
                SessionOutput,
                ProtocolError,
            >::Err(ProtocolError::UnexpectedNtf),
            ((packet matches Packet::Cmd { id, cmd: Cmd::Nick(..) }) || (packet
                matches Packet::Cmd { id, cmd: Cmd::Send(..) }) || (packet matches Packet::Cmd {
                id,
                cmd: Cmd::Who(..),
            })) ==> r is Ok,
    {
        match packet {
            Packet::Cmd { id, cmd } => match cmd {
                Cmd::Room(_) => Err(ProtocolError::UnexpectedRoom),
                Cmd::Identify(_) => Err(ProtocolError::UnexpectedIdentify),
                Cmd::Nick(c) => Ok(self.handle_nick(room, id, c)),
                Cmd::Send(c) => Ok(self.handle_send(room, id, c)),
                Cmd::Who(c) => Ok(self.handle_who(room, id, c)),
            },
            Packet::Rpl { .. } => Err(ProtocolError::UnexpectedRpl),
            Packet::Ntf { .. } => Err(ProtocolError::UnexpectedNtf),
        }
    }
}

/// The process-wide registry of rooms, looked up by name.
pub struct Server {
    pub rooms: Vec<Room>,
}

impl Server {
    /// Room names are unique and every room is well formed.
    pub open spec fn wf(self) -> bool {
        &&& forall|i: int, j: int|
            0 <= i < j < self.rooms@.len() ==> (#[trigger] self.rooms@[i]).name@ != (
            #[trigger] self.rooms@[j]).name@
        &&& forall|i: int| 0 <= i < self.rooms@.len() ==> (#[trigger] self.rooms@[i]).wf()
    }

    /// A server with no rooms yet.
    pub fn new() -> (r: Server)
        ensures
            r.rooms@.len() == 0,
            r.wf(),
    {
        Server { rooms: Vec::new() }
    }

    /// Looks the room up by name, creating a fresh one if absent; returns its
    /// index.
    pub fn room(&mut self, name: String) -> (i: usize)
        requires
            old(self).wf(),
        ensures
            final(self).wf(),
            i < final(self).rooms@.len(),
            final(self).rooms@[i as int].name@ == name@,
            (exists|j: int|
                0 <= j < old(self).rooms@.len() && (#[trigger] old(self).rooms@[j]).name@
                    == name@) ==> *final(self) == *old(self),
            !(exists|j: int|
                0 <= j < old(self).rooms@.len() && (#[trigger] old(self).rooms@[j]).name@ == name@)
                ==> {
                &&& i as int == old(self).rooms@.len()
                &&& final(self).rooms@.len() == old(self).rooms@.len() + 1
                &&& forall|j: int|
                    0 <= j < old(self).rooms@.len() ==> final(self).rooms@[j] == old(
                        self,
                    ).rooms@[j]
                &&& final(self).rooms@[i as int].clients@.len() == 0
            },
    {
        let mut i: usize = 0;
        while i < self.rooms.len()
            invariant
                i <= self.rooms@.len(),
                *self == *old(self),
                self.wf(),
                forall|j: int| 0 <= j < i ==> (#[trigger] self.rooms@[j]).name@ != name@,
            decreases self.rooms@.len() - i,
        {
            if self.rooms[i].name == name {
                return i;
            }
            i = i + 1;
        }
        let room = Room::new(name);
        self.rooms.push(room);
        i
    }
}

} // verus!
