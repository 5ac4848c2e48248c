//! The wire-level message model shared by server and client: sessions,
//! messages, commands, replies and notifications.

use vstd::prelude::*;

use crate::ids::{digest_of, Identity, MessageId, SessionId, FOLD_BASIS, FOLD_PRIME};

verus! {

use vstd::string::StringSliceAdditionalSpecFns;

/// One client's presence in a room. The nick is mutable; id and identity are
/// fixed once the session is created.
#[derive(Clone, Debug, PartialEq)]
pub struct Session {
    pub id: SessionId,
    pub nick: String,
    pub identity: Identity,
}

impl Session {
    /// A copy equal to the original, usable in contracts (the derived clone
    /// says nothing about its result).
    pub fn duplicate(&self) -> (r: Session)
        ensures
            r == *self,
    {
        let r = Session { id: self.id, nick: self.nick.clone(), identity: self.identity };
        proof {
            assert(r == *self);
        }
        r
    }
}

/// One message in a room's linear history and in a thread tree.
#[derive(Clone, Debug, PartialEq)]
pub struct Message {
    /// Monotonic per room.
    pub time: u128,
    /// Id of the message sent immediately before this one in the same room;
    /// the field forms a hash chain over the room's history.
    pub pred: MessageId,
    /// Thread parent, if the message is a reply.
    pub parent: Option<MessageId>,
    pub identity: Identity,
    pub nick: String,
    pub content: String,
}

/// One step of the word-level fold behind message ids.
pub open spec fn mix_word(h: u64, w: u64) -> u64 {
    vstd::wrapping::u64_specs::wrapping_mul(h ^ w, FOLD_PRIME)
}

/// The digest of a string's UTF-8 encoding.
pub open spec fn str_digest(s: Seq<char>) -> u64 {
    digest_of(vstd::utf8::encode_utf8(s))
}

/// A message's id: a deterministic fold over all its fields.
pub open spec fn spec_message_id(m: Message) -> MessageId {
    MessageId(
        mix_word(
            mix_word(
                mix_word(
                    mix_word(
                        mix_word(
                            mix_word(
                                mix_word(FOLD_BASIS, (m.time >> 64) as u64),
                                m.time as u64,
                            ),
                            m.pred.0,
                        ),
                        match m.parent {
                            Some(p) => 1u64,
                            None => 0u64,
                        },
                    ),
                    match m.parent {
                        Some(p) => p.0,
                        None => 0u64,
                    },
                ),
                m.identity.0,
            ),
            mix_word(mix_word(FOLD_BASIS, str_digest(m.nick@)), str_digest(m.content@)),
        ),
    )
}

/// One fold step over a 64-bit word.
fn mix(h: u64, w: u64) -> (r: u64)
    ensures
        r == mix_word(h, w),
{
    (h ^ w).wrapping_mul(FOLD_PRIME)
}

/// The digest of a string slice's bytes.
pub fn digest_str(s: &str) -> (r: u64)
    ensures
        r == str_digest(s@),
{
    crate::ids::digest(s.as_bytes())
}

impl Message {
    /// The message's content-addressed id, derived deterministically from all
    /// other fields.
    pub fn id(&self) -> (r: MessageId)
        ensures
            r == spec_message_id(*self),
    {
        let mut h: u64 = mix(FOLD_BASIS, (self.time >> 64) as u64);
        h = mix(h, self.time as u64);
        h = mix(h, self.pred.0);
        h = mix(
            h,
            match self.parent {
                Some(_) => 1u64,
                None => 0u64,
            },
        );
        h = mix(
            h,
            match self.parent {
                Some(p) => p.0,
                None => 0u64,
            },
        );
        h = mix(h, self.identity.0);
        let text = mix(mix(FOLD_BASIS, digest_str(self.nick.as_str())), digest_str(self.content.as_str()));
        MessageId(mix(h, text))
    }

    /// A copy equal to the original, usable in contracts.
    pub fn duplicate(&self) -> (r: Message)
        ensures
            r == *self,
    {
        let r = Message {
            time: self.time,
            pred: self.pred,
            parent: self.parent,
            identity: self.identity,
            nick: self.nick.clone(),
            content: self.content.clone(),
        };
        proof {
            assert(r == *self);
        }
        r
    }
}

/// Request to enter a room, the first negotiation step.
#[derive(Clone, Debug, PartialEq)]
pub struct RoomCmd {
    pub name: String,
}

/// Request to identify, the second negotiation step.
#[derive(Clone, Debug, PartialEq)]
pub struct IdentifyCmd {
    pub nick: String,
    pub identity: String,
}

/// Request to change the session's nick.
#[derive(Clone, Debug, PartialEq)]
pub struct NickCmd {
    pub nick: String,
}

/// Request to send a message, optionally as a reply to a parent.
#[derive(Clone, Debug, PartialEq)]
pub struct SendCmd {
    pub parent: Option<MessageId>,
    pub content: String,
}

/// Request for a snapshot of the room's members.
#[derive(Clone, Debug, PartialEq)]
pub struct WhoCmd {}

/// Client-to-server commands.
#[derive(Clone, Debug, PartialEq)]
pub enum Cmd {
    Room(RoomCmd),
    Identify(IdentifyCmd),
    Nick(NickCmd),
    Send(SendCmd),
    Who(WhoCmd),
}

#[derive(Clone, Debug, PartialEq)]
pub enum RoomRpl {
    Success,
    InvalidRoom { reason: String },
}

#[derive(Clone, Debug, PartialEq)]
pub enum IdentifyRpl {
    Success { you: Session, others: Vec<Session>, last_message: MessageId },
    InvalidNick { reason: String },
}

#[derive(Clone, Debug, PartialEq)]
pub enum NickRpl {
    Success { you: Session },
    InvalidNick { reason: String },
}

#[derive(Clone, Debug, PartialEq)]
pub enum SendRpl {
    Success { message: Message },
    InvalidContent { reason: String },
}

#[derive(Clone, Debug, PartialEq)]
pub struct WhoRpl {
    pub you: Session,
    pub others: Vec<Session>,
}

/// Server-to-client replies, correlated to commands by id.
#[derive(Clone, Debug, PartialEq)]
pub enum Rpl {
    Room(RoomRpl),
    Identify(IdentifyRpl),
    Nick(NickRpl),
    Send(SendRpl),
    Who(WhoRpl),
}

#[derive(Clone, Debug, PartialEq)]
pub struct JoinNtf {
    pub who: Session,
}

#[derive(Clone, Debug, PartialEq)]
pub struct PartNtf {
    pub who: Session,
}

#[derive(Clone, Debug, PartialEq)]
pub struct NickNtf {
    pub who: Session,
}

#[derive(Clone, Debug, PartialEq)]
pub struct SendNtf {
    pub message: Message,
}

/// Server-to-client unsolicited notifications.
#[derive(Clone, Debug, PartialEq)]
pub enum Ntf {
    Join(JoinNtf),
    Part(PartNtf),
    Nick(NickNtf),
    Send(SendNtf),
}

/// A framed packet: a command with a correlation id, a reply to one, or a
/// notification.
#[derive(Clone, Debug, PartialEq)]
pub enum Packet {
    Cmd { id: u64, cmd: Cmd },
    Rpl { id: u64, rpl: Rpl },
    Ntf { ntf: Ntf },
}

impl Packet {
    pub fn cmd(id: u64, cmd: Cmd) -> (r: Packet)
        ensures
            r == (Packet::Cmd { id, cmd }),
    {
        Packet::Cmd { id, cmd }
    }

    pub fn rpl(id: u64, rpl: Rpl) -> (r: Packet)
        ensures
            r == (Packet::Rpl { id, rpl }),
    {
        Packet::Rpl { id, rpl }
    }

    pub fn ntf(ntf: Ntf) -> (r: Packet)
        ensures
            r == (Packet::Ntf { ntf }),
    {
        Packet::Ntf { ntf }
    }
}

} // verus!
