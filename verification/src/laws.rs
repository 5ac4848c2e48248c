//! The room's fanout and history laws, stated over the spec functions that
//! the room operations' contracts use.

use vstd::prelude::*;

use crate::ids::{MessageId, SessionId};
use crate::packets::{spec_message_id, Message, Session};
use crate::room::{ids_except, ids_of, send_post, Room};

verus! {

/// How often an id occurs among a broadcast's recipients.
pub open spec fn count_id(s: Seq<SessionId>, x: SessionId) -> nat
    decreases s.len(),
{
    if s.len() == 0 {
        0
    } else {
        (if s[0] == x {
            1nat
        } else {
            0nat
        }) + count_id(s.drop_first(), x)
    }
}

/// Whether some member carries the id.
pub open spec fn has_id(s: Seq<Session>, x: SessionId) -> bool {
    exists|j: int| 0 <= j < s.len() && (#[trigger] s[j]).id == x
}

/// Member ids are pairwise distinct.
pub open spec fn distinct_ids(s: Seq<Session>) -> bool {
    forall|i: int, j: int| 0 <= i < j < s.len() ==> (#[trigger] s[i]).id != (#[trigger] s[j]).id
}

/// Law: a broadcast to all members (a join or part announcement) reaches a
/// present member exactly once and an absent one never.
pub proof fn lemma_notify_all_exactly_once(s: Seq<Session>, x: SessionId)
    requires
        distinct_ids(s),
    ensures
        count_id(ids_of(s), x) == (if has_id(s, x) {
            1nat
        } else {
            0nat
        }),
    decreases s.len(),
{
    if s.len() == 0 {
    } else {
        let rest = s.drop_first();
        assert forall|i: int, j: int| 0 <= i < j < rest.len() implies (#[trigger] rest[i]).id != (
        #[trigger] rest[j]).id by {
            assert(rest[i] == s[i + 1]);
            assert(rest[j] == s[j + 1]);
        }
        lemma_notify_all_exactly_once(rest, x);
        assert(ids_of(s)[0] == s[0].id);
        assert(ids_of(s).drop_first() =~= ids_of(rest));
        if s[0].id == x {
            assert forall|j: int| 0 <= j < rest.len() implies (#[trigger] rest[j]).id != x by {
                assert(rest[j] == s[j + 1]);
            }
            assert(!has_id(rest, x));
        } else {
            if has_id(s, x) {
                let j = choose|j: int| 0 <= j < s.len() && (#[trigger] s[j]).id == x;
                assert(rest[j - 1] == s[j]);
                assert(has_id(rest, x));
            } else if has_id(rest, x) {
                let j = choose|j: int| 0 <= j < rest.len() && (#[trigger] rest[j]).id == x;
                assert(s[j + 1] == rest[j]);
            }
        }
    }
}

/// Law: a broadcast to all members but one (a nick change or a new message)
/// never reaches the excluded member, and reaches every other present member
/// exactly once.
pub proof fn lemma_notify_except_counts(s: Seq<Session>, x: SessionId, y: SessionId)
    requires
        distinct_ids(s),
    ensures
        count_id(ids_except(s, x), x) == 0,
        y != x ==> count_id(ids_except(s, x), y) == (if has_id(s, y) {
            1nat
        } else {
            0nat
        }),
    decreases s.len(),
{
    if s.len() == 0 {
    } else {
        let rest = s.drop_first();
        assert forall|i: int, j: int| 0 <= i < j < rest.len() implies (#[trigger] rest[i]).id != (
        #[trigger] rest[j]).id by {
            assert(rest[i] == s[i + 1]);
            assert(rest[j] == s[j + 1]);
        }
        lemma_notify_except_counts(rest, x, y);
        if s[0].id == x {
            assert(ids_except(s, x) == ids_except(rest, x));
            if y != x {
                if has_id(s, y) {
                    let j = choose|j: int| 0 <= j < s.len() && (#[trigger] s[j]).id == y;
                    assert(rest[j - 1] == s[j]);
                    assert(has_id(rest, y));
                } else if has_id(rest, y) {
                    let j = choose|j: int| 0 <= j < rest.len() && (#[trigger] rest[j]).id == y;
                    assert(s[j + 1] == rest[j]);
                }
            }
        } else {
            assert(ids_except(s, x)[0] == s[0].id);
            assert(ids_except(s, x).drop_first() =~= ids_except(rest, x));
            if y != x {
                if s[0].id == y {
                    assert forall|j: int| 0 <= j < rest.len() implies (#[trigger] rest[j]).id
                        != y by {
                        assert(rest[j] == s[j + 1]);
                    }
                    assert(!has_id(rest, y));
                    assert(has_id(s, y));
                } else {
                    if has_id(s, y) {
                        let j = choose|j: int| 0 <= j < s.len() && (#[trigger] s[j]).id == y;
                        assert(rest[j - 1] == s[j]);
                        assert(has_id(rest, y));
                    } else if has_id(rest, y) {
                        let j = choose|j: int| 0 <= j < rest.len() && (#[trigger] rest[j]).id == y;
                        assert(s[j + 1] == rest[j]);
                    }
                }
            }
        }
    }
}

/// Law: across two consecutive sends in one room, the second message's pred
/// is the first message's id, and time moves strictly forward — the room's
/// history forms a hash chain with strictly increasing timestamps.
pub proof fn lemma_hash_chain(
    r0: Room,
    r1: Room,
    r2: Room,
    s1: Session,
    s2: Session,
    p1: Option<MessageId>,
    p2: Option<MessageId>,
    c1: Seq<char>,
    c2: Seq<char>,
    m1: Message,
    m2: Message,
    n1: Seq<SessionId>,
    n2: Seq<SessionId>,
)
    requires
        send_post(r0, r1, s1, p1, c1, m1, n1),
        send_post(r1, r2, s2, p2, c2, m2, n2),
    ensures
        m2.pred == spec_message_id(m1),
        m2.time > m1.time,
        r2.last_timestamp > r1.last_timestamp > r0.last_timestamp,
{
}

} // verus!
