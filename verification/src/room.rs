//! Per-room server state: the member list, the head of the message hash
//! chain, and the monotonic timestamp. Every operation runs under the room's
//! exclusive hold; instead of writing to sockets, operations return the
//! packet to broadcast together with the exact list of recipients.

use vstd::prelude::*;

use crate::ids::{MessageId, SessionId};
use crate::packets::{spec_message_id, JoinNtf, Message, NickNtf, Ntf, PartNtf, Session};
use crate::runtime::{random_u64, timestamp, timestamp_after};

verus! {

/// The ids of all sessions, in member order.
pub open spec fn ids_of(s: Seq<Session>) -> Seq<SessionId>
    decreases s.len(),
{
    if s.len() == 0 {
        Seq::empty()
    } else {
        seq![s[0].id] + ids_of(s.drop_first())
    }
}

/// The ids of all sessions but the one given, in member order.
pub open spec fn ids_except(s: Seq<Session>, id: SessionId) -> Seq<SessionId>
    decreases s.len(),
{
    if s.len() == 0 {
        Seq::empty()
    } else if s[0].id == id {
        ids_except(s.drop_first(), id)
    } else {
        seq![s[0].id] + ids_except(s.drop_first(), id)
    }
}

/// All sessions but the one with the given id, in member order.
pub open spec fn sessions_except(s: Seq<Session>, id: SessionId) -> Seq<Session>
    decreases s.len(),
{
    if s.len() == 0 {
        Seq::empty()
    } else if s[0].id == id {
        sessions_except(s.drop_first(), id)
    } else {
        seq![s[0]] + sessions_except(s.drop_first(), id)
    }
}

/// Removing one member keeps every other member, keeps ids unique, and
/// leaves no member with the removed id.
pub proof fn lemma_sessions_except_wf(s: Seq<Session>, id: SessionId)
    requires
        forall|i: int, j: int| 0 <= i < j < s.len() ==> (#[trigger] s[i]).id != (#[trigger] s[j]).id,
    ensures
        forall|j: int|
            0 <= j < sessions_except(s, id).len() ==> (#[trigger] sessions_except(s, id)[j]).id
                != id,
        forall|j: int|
            0 <= j < sessions_except(s, id).len() ==> exists|k: int|
                0 <= k < s.len() && (#[trigger] sessions_except(s, id)[j]) == s[k],
        forall|i: int, j: int|
            0 <= i < j < sessions_except(s, id).len() ==> (#[trigger] sessions_except(s, id)[i]).id
                != (#[trigger] sessions_except(s, id)[j]).id,
    decreases s.len(),
{
    if s.len() == 0 {
    } else {
        let rest = s.drop_first();
        let se = sessions_except(s, id);
        let ser = sessions_except(rest, id);
        assert forall|i: int, j: int| 0 <= i < j < rest.len() implies (#[trigger] rest[i]).id != (
        #[trigger] rest[j]).id by {
            assert(rest[i] == s[i + 1]);
            assert(rest[j] == s[j + 1]);
        }
        lemma_sessions_except_wf(rest, id);
        if s[0].id == id {
            assert(se =~= ser);
            assert forall|j: int| 0 <= j < se.len() implies exists|k: int|
                0 <= k < s.len() && (#[trigger] se[j]) == s[k] by {
                let k = choose|k: int| 0 <= k < rest.len() && ser[j] == rest[k];
                assert(se[j] == s[k + 1]);
            }
        } else {
            assert(se =~= seq![s[0]] + ser);
            assert forall|j: int| 0 <= j < se.len() implies (#[trigger] se[j]).id != id by {
                if j > 0 {
                    assert(se[j] == ser[j - 1]);
                }
            }
            assert forall|j: int| 0 <= j < se.len() implies exists|k: int|
                0 <= k < s.len() && (#[trigger] se[j]) == s[k] by {
                if j == 0 {
                    assert(se[0] == s[0]);
                } else {
                    let k = choose|k: int| 0 <= k < rest.len() && ser[j - 1] == rest[k];
                    assert(se[j] == s[k + 1]);
                }
            }
            assert forall|i: int, j: int| 0 <= i < j < se.len() implies (#[trigger] se[i]).id != (
            #[trigger] se[j]).id by {
                if i == 0 {
                    let k = choose|k: int| 0 <= k < rest.len() && ser[j - 1] == rest[k];
                    assert(se[j] == rest[k]);
                    assert(rest[k] == s[k + 1]);
                    assert(s[0].id != s[k + 1].id);
                } else {
                    assert(se[i] == ser[i - 1]);
                    assert(se[j] == ser[j - 1]);
                }
            }
        }
    }
}

/// A named channel with a member list and a linear message history.
#[derive(Debug)]
pub struct Room {
    pub name: String,
    pub clients: Vec<Session>,
    pub last_message: MessageId,
    pub last_timestamp: u128,
}

/// What `send` promises: the relation between the room before and after, the
/// message built, and the notified members.
pub open spec fn send_post(
    pre: Room,
    post: Room,
    sender: Session,
    parent: Option<MessageId>,
    content: Seq<char>,
    message: Message,
    recipients: Seq<SessionId>,
) -> bool {
    &&& message.time == post.last_timestamp
    &&& message.time > pre.last_timestamp
    &&& message.pred == pre.last_message
    &&& message.parent == parent
    &&& message.identity == sender.identity
    &&& message.nick@ == sender.nick@
    &&& message.content@ == content
    &&& post.last_message == spec_message_id(message)
    &&& post.clients@ == pre.clients@
    &&& post.name@ == pre.name@
    &&& recipients == ids_except(pre.clients@, sender.id)
}

impl Room {
    /// Member session ids are unique within the room.
    pub open spec fn wf(self) -> bool {
        forall|i: int, j: int|
            0 <= i < j < self.clients@.len() ==> (#[trigger] self.clients@[i]).id != (
            #[trigger] self.clients@[j]).id
    }

    /// Whether a member with this session id is present.
    pub open spec fn spec_has_client(self, id: SessionId) -> bool {
        exists|i: int| 0 <= i < self.clients@.len() && (#[trigger] self.clients@[i]).id == id
    }

    /// The member with this session id (meaningful only when present and ids
    /// are unique).
    pub open spec fn spec_client(self, id: SessionId) -> Session {
        self.clients@[choose|i: int|
            0 <= i < self.clients@.len() && (#[trigger] self.clients@[i]).id == id]
    }

    /// A fresh room: no members, a random seed as the head of the hash chain,
    /// and the clock as the initial timestamp.
    pub fn new(name: String) -> (r: Room)
        ensures
            r.name@ == name@,
            r.clients@.len() == 0,
            r.wf(),
    {
        let seed = random_u64();
        let now = timestamp();
        Room {
            name,
            clients: Vec::new(),
            last_message: MessageId::of_u64(seed),
            last_timestamp: now,
        }
    }

    /// Whether a member with this session id is present.
    pub fn has_client(&self, id: SessionId) -> (r: bool)
        ensures
            r == self.spec_has_client(id),
    {
        let mut i: usize = 0;
        while i < self.clients.len()
            invariant
                i <= self.clients@.len(),
                forall|j: int| 0 <= j < i ==> (#[trigger] self.clients@[j]).id != id,
            decreases self.clients@.len() - i,
        {
            if self.clients[i].id == id {
                return true;
            }
            i = i + 1;
        }
        false
    }

    /// The member with this session id.
    pub fn client(&self, id: SessionId) -> (r: &Session)
        requires
            self.wf(),
            self.spec_has_client(id),
        ensures
            *r == self.spec_client(id),
            r.id == id,
    {
        let mut i: usize = 0;
        while i < self.clients.len()
            invariant
                i <= self.clients@.len(),
                self.wf(),
                self.spec_has_client(id),
                forall|j: int| 0 <= j < i ==> (#[trigger] self.clients@[j]).id != id,
            decreases self.clients@.len() - i,
        {
            if self.clients[i].id == id {
                return &self.clients[i];
            }
            i = i + 1;
        }
        proof {
            assert(false);
        }
        &self.clients[0]
    }

    /// The recipients of a broadcast to every member: each member exactly
    /// once, in member order.
    pub fn notify_all(&self) -> (r: Vec<SessionId>)
        ensures
            r@ == ids_of(self.clients@),
    {
        let mut r: Vec<SessionId> = Vec::new();
        let mut i: usize = 0;
        proof {
            assert(self.clients@.skip(0) =~= self.clients@);
            assert(r@ + ids_of(self.clients@) =~= ids_of(self.clients@));
        }
        while i < self.clients.len()
            invariant
                i <= self.clients@.len(),
                r@ + ids_of(self.clients@.skip(i as int)) == ids_of(self.clients@),
                r@.len() == i,
            decreases self.clients@.len() - i,
        {
            proof {
                let rest = self.clients@.skip(i as int);
                assert(rest[0] == self.clients@[i as int]);
                assert(rest.drop_first() =~= self.clients@.skip(i as int + 1));
                assert(r@.push(rest[0].id) + ids_of(rest.drop_first()) =~= r@ + ids_of(rest));
            }
            r.push(self.clients[i].id);
            i = i + 1;
        }
        proof {
            assert(self.clients@.skip(i as int) =~= Seq::<Session>::empty());
            assert(r@ + Seq::<SessionId>::empty() =~= r@);
        }
        r
    }

    /// The recipients of a broadcast to every member but one: each other
    /// member exactly once, in member order.
    pub fn notify_except(&self, id: SessionId) -> (r: Vec<SessionId>)
        ensures
            r@ == ids_except(self.clients@, id),
    {
        let mut r: Vec<SessionId> = Vec::new();
        let mut i: usize = 0;
        proof {
            assert(self.clients@.skip(0) =~= self.clients@);
            assert(r@ + ids_except(self.clients@, id) =~= ids_except(self.clients@, id));
        }
        while i < self.clients.len()
            invariant
                i <= self.clients@.len(),
                r@ + ids_except(self.clients@.skip(i as int), id) == ids_except(self.clients@, id),
            decreases self.clients@.len() - i,
        {
            proof {
                let rest = self.clients@.skip(i as int);
                assert(rest[0] == self.clients@[i as int]);
                assert(rest.drop_first() =~= self.clients@.skip(i as int + 1));
                if rest[0].id != id {
                    assert(r@.push(rest[0].id) + ids_except(rest.drop_first(), id) =~= r@
                        + ids_except(rest, id));
                }
            }
            if self.clients[i].id != id {
                r.push(self.clients[i].id);
            }
            i = i + 1;
        }
        proof {
            assert(self.clients@.skip(i as int) =~= Seq::<Session>::empty());
            assert(r@ + Seq::<SessionId>::empty() =~= r@);
        }
        r
    }

    /// Announces the new member to every existing member, then inserts it.
    /// A duplicated session id would be a generator collision, which the
    /// caller treats as fatal; it is excluded here.
    pub fn join(&mut self, session: Session) -> (r: (Ntf, Vec<SessionId>))
        requires
            old(self).wf(),
            !old(self).spec_has_client(session.id),
        ensures
            final(self).wf(),
            final(self).clients@ == old(self).clients@.push(session),
            final(self).name@ == old(self).name@,
            final(self).last_message == old(self).last_message,
            final(self).last_timestamp == old(self).last_timestamp,
            r.0 == Ntf::Join(JoinNtf { who: session }),
            r.1@ == ids_of(old(self).clients@),
    {
        let recipients = self.notify_all();
        let ntf = Ntf::Join(JoinNtf { who: session.duplicate() });
        self.clients.push(session);
        (ntf, recipients)
    }

    /// Removes the member, then announces the departure to every remaining
    /// member.
    pub fn part(&mut self, id: SessionId) -> (r: (Ntf, Vec<SessionId>))
        requires
            old(self).wf(),
            old(self).spec_has_client(id),
        ensures
            final(self).wf(),
            !final(self).spec_has_client(id),
            final(self).clients@ == sessions_except(old(self).clients@, id),
            final(self).name@ == old(self).name@,
            final(self).last_message == old(self).last_message,
            final(self).last_timestamp == old(self).last_timestamp,
            r.0 == Ntf::Part(PartNtf { who: old(self).spec_client(id) }),
            r.1@ == ids_of(final(self).clients@),
    {
        let mut kept: Vec<Session> = Vec::new();
        let mut removed: Option<Session> = None;
        let mut i: usize = 0;
        proof {
            assert(self.clients@.skip(0) =~= self.clients@);
        }
        while i < self.clients.len()
            invariant
                i <= self.clients@.len(),
                *self == *old(self),
                self.wf(),
                self.spec_has_client(id),
                kept@ + sessions_except(self.clients@.skip(i as int), id) == sessions_except(
                    self.clients@,
                    id,
                ),
                removed matches Some(s) ==> s == self.spec_client(id),
                removed is Some <==> exists|j: int|
                    0 <= j < i && (#[trigger] self.clients@[j]).id == id,
            decreases self.clients@.len() - i,
        {
            proof {
                let rest = self.clients@.skip(i as int);
                assert(rest[0] == self.clients@[i as int]);
                assert(rest.drop_first() =~= self.clients@.skip(i as int + 1));
                if rest[0].id != id {
                    assert(kept@.push(rest[0]) + sessions_except(rest.drop_first(), id) =~= kept@
                        + sessions_except(rest, id));
                }
            }
            let s = self.clients[i].duplicate();
            if s.id == id {
                proof {
                    let j = choose|j: int|
                        0 <= j < self.clients@.len() && (#[trigger] self.clients@[j]).id == id;
                    assert(self.clients@[i as int].id == id);
                    assert(j == i as int);
                }
                removed = Some(s);
            } else {
                kept.push(s);
            }
            i = i + 1;
        }
        proof {
            assert(self.clients@.skip(i as int) =~= Seq::<Session>::empty());
            assert(kept@ + Seq::<Session>::empty() =~= kept@);
            lemma_sessions_except_wf(self.clients@, id);
        }
        let who = match removed {
            Some(s) => s,
            None => {
                proof {
                    assert(false);
                }
                self.clients[0].duplicate()
            },
        };
        self.clients = kept;
        let recipients = self.notify_all();
        (Ntf::Part(PartNtf { who }), recipients)
    }

    /// Updates the member's nick and announces the change to every member but
    /// that one; the member itself is answered by the correlated reply
    /// instead.
    pub fn nick(&mut self, id: SessionId, nick: String) -> (r: (Ntf, Vec<SessionId>))
        requires
            old(self).wf(),
            old(self).spec_has_client(id),
        ensures
            final(self).wf(),
            final(self).name@ == old(self).name@,
            final(self).last_message == old(self).last_message,
            final(self).last_timestamp == old(self).last_timestamp,
            exists|i: int|
                0 <= i < old(self).clients@.len() && (#[trigger] old(self).clients@[i]).id == id
                    && final(self).clients@ == old(self).clients@.update(
                    i,
                    Session { nick: nick, ..old(self).clients@[i] },
                ) && r.0 == Ntf::Nick(NickNtf { who: final(self).clients@[i] }),
            r.1@ == ids_except(final(self).clients@, id),
    {
        let mut i: usize = 0;
        while i < self.clients.len()
            invariant
                i <= self.clients@.len(),
                *self == *old(self),
                self.wf(),
                self.spec_has_client(id),
                forall|j: int| 0 <= j < i ==> (#[trigger] self.clients@[j]).id != id,
            decreases self.clients@.len() - i,
        {
            if self.clients[i].id == id {
                let ghost pre = *self;
                let s = self.clients.remove(i);
                let updated = Session { id: s.id, nick, identity: s.identity };
                let who = updated.duplicate();
                self.clients.insert(i, updated);
                proof {
                    assert(self.clients@ =~= pre.clients@.update(
                        i as int,
                        Session { nick: who.nick, ..pre.clients@[i as int] },
                    ));
                    assert(self.clients@[i as int] == who);
                    assert forall|a: int, b: int|
                        0 <= a < b < self.clients@.len() implies (#[trigger] self.clients@[a]).id
                        != (#[trigger] self.clients@[b]).id by {
                        assert(self.clients@[a].id == pre.clients@[a].id);
                        assert(self.clients@[b].id == pre.clients@[b].id);
                    }
                }
                let recipients = self.notify_except(id);
                return (Ntf::Nick(NickNtf { who }), recipients);
            }
            i = i + 1;
        }
        proof {
            assert(false);
        }
        (Ntf::Nick(NickNtf { who: self.clients[0].duplicate() }), Vec::new())
    }

    /// Builds the next message in the room's history and announces it to
    /// every member but the sender; the sender is answered by the correlated
    /// reply carrying the same message. The timestamp moves strictly forward.
    pub fn send(&mut self, id: SessionId, parent: Option<MessageId>, content: String) -> (r: (
        Message,
        Vec<SessionId>,
    ))
        requires
            old(self).wf(),
            old(self).spec_has_client(id),
            old(self).last_timestamp < u128::MAX,
        ensures
            final(self).wf(),
            send_post(
                *old(self),
                *final(self),
                old(self).spec_client(id),
                parent,
                content@,
                r.0,
                r.1@,
            ),
    {
        let ghost pre = *self;
        let sender = self.client(id).duplicate();
        self.last_timestamp = timestamp_after(self.last_timestamp);
        let message = Message {
            time: self.last_timestamp,
            pred: self.last_message,
            parent,
            identity: sender.identity,
            nick: sender.nick,
            content,
        };
        self.last_message = message.id();
        let recipients = self.notify_except(id);
        let copy = message.duplicate();
        (message, recipients)
    }

    /// A snapshot of the caller's session and of all other members' sessions.
    pub fn who(&self, id: SessionId) -> (r: (Session, Vec<Session>))
        requires
            self.wf(),
            self.spec_has_client(id),
        ensures
            r.0 == self.spec_client(id),
            r.1@ == sessions_except(self.clients@, id),
    {
        let you = self.client(id).duplicate();
        let mut others: Vec<Session> = Vec::new();
        let mut i: usize = 0;
        proof {
            assert(self.clients@.skip(0) =~= self.clients@);
            assert(others@ + sessions_except(self.clients@, id) =~= sessions_except(
                self.clients@,
                id,
            ));
        }
        while i < self.clients.len()
            invariant
                i <= self.clients@.len(),
                others@ + sessions_except(self.clients@.skip(i as int), id) == sessions_except(
                    self.clients@,
                    id,
                ),
            decreases self.clients@.len() - i,
        {
            proof {
                let rest = self.clients@.skip(i as int);
                assert(rest[0] == self.clients@[i as int]);
                assert(rest.drop_first() =~= self.clients@.skip(i as int + 1));
                if rest[0].id != id {
                    assert(others@.push(rest[0]) + sessions_except(rest.drop_first(), id)
                        =~= others@ + sessions_except(rest, id));
                }
            }
            if self.clients[i].id != id {
                others.push(self.clients[i].duplicate());
            }
            i = i + 1;
        }
        proof {
            assert(self.clients@.skip(i as int) =~= Seq::<Session>::empty());
            assert(others@ + Seq::<Session>::empty() =~= others@);
        }
        (you, others)
    }
}

} // verus!
