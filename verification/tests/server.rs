use cove::ids::{Identity, MessageId, SessionId};
use cove::packets::{
    Cmd, IdentifyCmd, IdentifyRpl, NickCmd, NickRpl, Ntf, Packet, RoomCmd, RoomRpl, SendCmd,
    SendNtf, SendRpl, Session, WhoCmd,
};
use cove::packets::Rpl;
use cove::room::Room;
use cove::server::{
    greet, negotiate_identity, negotiate_room, IdentityNegotiation, ProtocolError, RoomNegotiation,
    Server, ServerSession,
};
use cove::validate::{check_content, check_identity, check_nick, check_room};

fn identify_packet(id: u64, nick: &str, identity: &str) -> Packet {
    Packet::cmd(
        id,
        Cmd::Identify(IdentifyCmd { nick: nick.to_owned(), identity: identity.to_owned() }),
    )
}

fn make_session(seed: u64, nick: &str, identity: &str) -> (u64, Session) {
    match negotiate_identity(Some(identify_packet(7, nick, identity)), seed) {
        IdentityNegotiation::Accept { id, session } => (id, session),
        _ => panic!("identify was rejected"),
    }
}

#[test]
fn negotiate_room_accepts_valid_name() {
    let packet = Packet::cmd(1, Cmd::Room(RoomCmd { name: "r".to_owned() }));
    match negotiate_room(Some(packet)) {
        RoomNegotiation::Accept { reply, name } => {
            assert_eq!(name, "r");
            assert!(matches!(
                reply,
                Packet::Rpl { id: 1, rpl: Rpl::Room(RoomRpl::Success) }
            ));
        }
        _ => panic!("valid room name was not accepted"),
    }
}

#[test]
fn negotiate_room_rejects_empty_name_and_stays() {
    let packet = Packet::cmd(2, Cmd::Room(RoomCmd { name: "".to_owned() }));
    match negotiate_room(Some(packet)) {
        RoomNegotiation::Retry { reply } => match reply {
            Packet::Rpl { id, rpl: Rpl::Room(RoomRpl::InvalidRoom { reason }) } => {
                assert_eq!(id, 2);
                assert_eq!(reason, "empty");
            }
            other => panic!("unexpected reply {other:?}"),
        },
        _ => panic!("empty room name should be answered and retried"),
    }
}

#[test]
fn negotiate_room_is_fatal_on_other_packets() {
    let packet = Packet::cmd(3, Cmd::Who(WhoCmd {}));
    assert!(matches!(negotiate_room(Some(packet)), RoomNegotiation::Fatal));
    assert!(matches!(negotiate_room(None), RoomNegotiation::Fatal));
}

#[test]
fn negotiate_identity_builds_session() {
    let (id, session) = make_session(11, "a", "ident-a");
    assert_eq!(id, 7);
    assert_eq!(session.nick, "a");
    assert_eq!(session.id, SessionId::of_u64(11));
    assert_eq!(session.identity, Identity::of("ident-a".as_bytes()));
}

#[test]
fn negotiate_identity_rejects_bad_nick() {
    match negotiate_identity(Some(identify_packet(9, "   ", "ident")), 1) {
        IdentityNegotiation::Retry { reply } => match reply {
            Packet::Rpl { id, rpl: Rpl::Identify(IdentifyRpl::InvalidNick { reason }) } => {
                assert_eq!(id, 9);
                assert_eq!(reason, "empty");
            }
            other => panic!("unexpected reply {other:?}"),
        },
        _ => panic!("blank nick should be rejected"),
    }
}

/// S1: three clients identify in order; the third is welcomed with the two
/// existing members and the room's seed message id, and the existing members
/// each observe exactly one join notification.
#[test]
fn s1_join_order() {
    let mut server = Server::new();
    let idx = server.room("r".to_owned());
    let room = &mut server.rooms[idx];
    let l0 = room.last_message;

    let (ida, a) = make_session(1, "a", "ia");
    let (idb, b) = make_session(2, "b", "ib");
    let (idc, c) = make_session(3, "c", "ic");

    let (_, _, to_a) = greet(room, ida, a.clone());
    assert!(to_a.is_empty());
    let (_, _, to_ab) = greet(room, idb, b.clone());
    assert_eq!(to_ab, vec![a.id]);
    let (welcome_c, join_c, to_abc) = greet(room, idc, c.clone());

    match welcome_c {
        Packet::Rpl { id, rpl: Rpl::Identify(IdentifyRpl::Success { you, others, last_message }) } => {
            assert_eq!(id, idc);
            assert_eq!(you.id, c.id);
            assert_eq!(others.len(), 2);
            assert_eq!(others[0].id, a.id);
            assert_eq!(others[1].id, b.id);
            assert_eq!(last_message, l0);
        }
        other => panic!("unexpected welcome {other:?}"),
    }
    match join_c {
        Ntf::Join(j) => assert_eq!(j.who.id, c.id),
        other => panic!("unexpected notification {other:?}"),
    }
    // Exactly one join notification per existing member, in member order.
    assert_eq!(to_abc, vec![a.id, b.id]);
}

fn room_with_abc() -> (Room, Session, Session, Session) {
    let mut server = Server::new();
    let idx = server.room("r".to_owned());
    let (ida, a) = make_session(1, "a", "ia");
    let (idb, b) = make_session(2, "b", "ib");
    let (idc, c) = make_session(3, "c", "ic");
    {
        let room = &mut server.rooms[idx];
        greet(room, ida, a.clone());
        greet(room, idb, b.clone());
        greet(room, idc, c.clone());
    }
    (server.rooms.remove(idx), a, b, c)
}

/// S2: two sends chain: each message's pred is the previous message's id,
/// the sender's reply carries the same message the others are notified of.
#[test]
fn s2_send_chain() {
    let (mut room, a, b, c) = room_with_abc();
    let l0 = room.last_message;

    let mut sa = ServerSession { session: a.clone() };
    let out1 = sa.handle_send(&mut room, 10, SendCmd { parent: None, content: "hello".to_owned() });
    let m1 = match out1.reply {
        Packet::Rpl { id: 10, rpl: Rpl::Send(SendRpl::Success { message }) } => message,
        other => panic!("unexpected reply {other:?}"),
    };
    assert_eq!(m1.pred, l0);
    assert_eq!(m1.content, "hello");
    assert_eq!(m1.nick, "a");
    let (ntf1, recipients1) = out1.broadcast.expect("a send must be broadcast");
    match ntf1 {
        Ntf::Send(SendNtf { message }) => assert_eq!(message, m1),
        other => panic!("unexpected notification {other:?}"),
    }
    assert_eq!(recipients1, vec![b.id, c.id]);
    assert_eq!(room.last_message, m1.id());

    let mut sb = ServerSession { session: b.clone() };
    let out2 = sb.handle_send(&mut room, 11, SendCmd { parent: None, content: "world".to_owned() });
    let m2 = match out2.reply {
        Packet::Rpl { id: 11, rpl: Rpl::Send(SendRpl::Success { message }) } => message,
        other => panic!("unexpected reply {other:?}"),
    };
    // Hash chain: the second message's pred is the first message's id.
    assert_eq!(m2.pred, m1.id());
    assert!(m2.time > m1.time);
    let (_, recipients2) = out2.broadcast.expect("a send must be broadcast");
    assert_eq!(recipients2, vec![a.id, c.id]);
}

/// S3: a nick change is confirmed to the changer and announced to everyone
/// else, never to the changer itself.
#[test]
fn s3_nick_change() {
    let (mut room, a, b, c) = room_with_abc();
    let mut sa = ServerSession { session: a.clone() };
    let out = sa.handle_nick(&mut room, 20, NickCmd { nick: "alice".to_owned() });
    match out.reply {
        Packet::Rpl { id: 20, rpl: Rpl::Nick(NickRpl::Success { you }) } => {
            assert_eq!(you.id, a.id);
            assert_eq!(you.nick, "alice");
        }
        other => panic!("unexpected reply {other:?}"),
    }
    let (ntf, recipients) = out.broadcast.expect("a nick change must be broadcast");
    match ntf {
        Ntf::Nick(n) => {
            assert_eq!(n.who.id, a.id);
            assert_eq!(n.who.nick, "alice");
        }
        other => panic!("unexpected notification {other:?}"),
    }
    assert_eq!(recipients, vec![b.id, c.id]);
}

/// S4: empty content is rejected with the reason "empty"; nothing is
/// broadcast and the room's history head and timestamp are untouched.
#[test]
fn s4_invalid_content() {
    let (mut room, a, _b, _c) = room_with_abc();
    let l0 = room.last_message;
    let t0 = room.last_timestamp;
    let mut sa = ServerSession { session: a };
    let out = sa.handle_send(&mut room, 30, SendCmd { parent: None, content: "".to_owned() });
    match out.reply {
        Packet::Rpl { id: 30, rpl: Rpl::Send(SendRpl::InvalidContent { reason }) } => {
            assert_eq!(reason, "empty");
        }
        other => panic!("unexpected reply {other:?}"),
    }
    assert!(out.broadcast.is_none());
    assert_eq!(room.last_message, l0);
    assert_eq!(room.last_timestamp, t0);
}

/// S5: a departure is announced exactly once to each remaining member, and a
/// later re-identify produces a fresh session id and a fresh join.
#[test]
fn s5_disconnect() {
    let (mut room, a, b, c) = room_with_abc();
    let (ntf, recipients) = room.part(a.id);
    match ntf {
        Ntf::Part(p) => assert_eq!(p.who.id, a.id),
        other => panic!("unexpected notification {other:?}"),
    }
    assert_eq!(recipients, vec![b.id, c.id]);
    assert!(!room.has_client(a.id));

    let (id2, a2) = make_session(99, "a", "ia");
    assert_ne!(a2.id, a.id);
    let (_, join, to_bc) = greet(&mut room, id2, a2.clone());
    match join {
        Ntf::Join(j) => assert_eq!(j.who.id, a2.id),
        other => panic!("unexpected notification {other:?}"),
    }
    assert_eq!(to_bc, vec![b.id, c.id]);
}

#[test]
fn handle_packet_rejects_wrong_states() {
    let (mut room, a, _b, _c) = room_with_abc();
    let mut sa = ServerSession { session: a };
    let room_cmd = Packet::cmd(1, Cmd::Room(RoomCmd { name: "x".to_owned() }));
    assert!(matches!(sa.handle_packet(&mut room, room_cmd), Err(ProtocolError::UnexpectedRoom)));
    let identify = identify_packet(2, "n", "i");
    assert!(matches!(sa.handle_packet(&mut room, identify), Err(ProtocolError::UnexpectedIdentify)));
    let rpl = Packet::rpl(3, Rpl::Room(RoomRpl::Success));
    assert!(matches!(sa.handle_packet(&mut room, rpl), Err(ProtocolError::UnexpectedRpl)));
    let ntf = Packet::ntf(Ntf::Send(SendNtf {
        message: cove::packets::Message {
            time: 0,
            pred: MessageId::of_u64(0),
            parent: None,
            identity: Identity::of(b"x"),
            nick: "x".to_owned(),
            content: "x".to_owned(),
        },
    }));
    assert!(matches!(sa.handle_packet(&mut room, ntf), Err(ProtocolError::UnexpectedNtf)));
}

#[test]
fn invalid_nick_is_rejected_without_broadcast() {
    let (mut room, a, _b, _c) = room_with_abc();
    let mut sa = ServerSession { session: a };
    let out = sa.handle_nick(&mut room, 21, NickCmd { nick: "\u{7}".to_owned() });
    match out.reply {
        Packet::Rpl { id: 21, rpl: Rpl::Nick(NickRpl::InvalidNick { reason }) } => {
            assert_eq!(reason, "contains control characters");
        }
        other => panic!("unexpected reply {other:?}"),
    }
    assert!(out.broadcast.is_none());
    assert_eq!(room.client(sa.session.id).nick, "a");
}

#[test]
fn who_lists_the_others() {
    let (room, a, b, c) = room_with_abc();
    let (you, others) = room.who(b.id);
    assert_eq!(you.id, b.id);
    assert_eq!(others.len(), 2);
    assert_eq!(others[0].id, a.id);
    assert_eq!(others[1].id, c.id);
}

#[test]
fn server_reuses_rooms_by_name() {
    let mut server = Server::new();
    let i = server.room("alpha".to_owned());
    let j = server.room("beta".to_owned());
    let k = server.room("alpha".to_owned());
    assert_eq!(i, k);
    assert_ne!(i, j);
    assert_eq!(server.rooms.len(), 2);
}

#[test]
fn validation_rules() {
    assert_eq!(check_nick("alice"), None);
    assert_eq!(check_nick(""), Some("empty".to_owned()));
    assert_eq!(check_nick("   "), Some("empty".to_owned()));
    assert_eq!(check_nick("a\u{1}b"), Some("contains control characters".to_owned()));
    let long = "x".repeat(65);
    assert_eq!(check_nick(&long), Some("too long".to_owned()));
    assert_eq!(check_room("r"), None);
    assert_eq!(check_room("\t"), Some("contains control characters".to_owned()));
    assert_eq!(check_identity("some identity"), None);
    assert_eq!(check_content("hello"), None);
    assert_eq!(check_content(""), Some("empty".to_owned()));
    let long_content = "y".repeat(4097);
    assert_eq!(check_content(&long_content), Some("too long".to_owned()));
}

#[test]
fn message_ids_are_deterministic() {
    let m = cove::packets::Message {
        time: 42,
        pred: MessageId::of_u64(7),
        parent: Some(MessageId::of_u64(8)),
        identity: Identity::of(b"id"),
        nick: "n".to_owned(),
        content: "c".to_owned(),
    };
    let again = cove::packets::Message {
        time: 42,
        pred: MessageId::of_u64(7),
        parent: Some(MessageId::of_u64(8)),
        identity: Identity::of(b"id"),
        nick: "n".to_owned(),
        content: "c".to_owned(),
    };
    assert_eq!(m.id(), again.id());
    let other = cove::packets::Message { content: "d".to_owned(), ..m.clone() };
    assert_ne!(m.id(), other.id());
}

#[test]
fn digest_folds_bytes() {
    // The digest of no bytes is the fold's offset basis.
    assert_eq!(cove::ids::digest(b""), 0xcbf29ce484222325);
    // One byte goes through exactly one fold step.
    let expected = (0xcbf29ce484222325u64 ^ b'a' as u64).wrapping_mul(0x100000001b3);
    assert_eq!(cove::ids::digest(b"a"), expected);
    assert_eq!(cove::ids::digest_u64(5), (0xcbf29ce484222325u64 ^ 5).wrapping_mul(0x100000001b3));
}

#[test]
fn timestamps_move_strictly_forward() {
    let t1 = cove::runtime::timestamp_after(0);
    assert!(t1 > 0);
    let far_future = u128::MAX - 1;
    assert_eq!(cove::runtime::timestamp_after(far_future), u128::MAX);
}
