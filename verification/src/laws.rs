//! The relay's guarantees, stated and proved over the registry and room
//! models: delivery to everyone but the sender, per-sender ordering,
//! eviction of slow consumers, idempotent leaves, and exact membership
//! after any interleaving of joins and leaves.

use vstd::prelude::*;
use crate::message::MessageView;
use crate::room::{RoomView, deliver, evicted_ids};
use crate::registry::{
    has_room, room_index, distinct_names, sessions_unique, rooms_wf,
    join_model, leave_model, lemma_deliver_ids, lemma_member_remove_ids,
};
use crate::session::{SessionView, distinct_ids, has_member, member_index};

verus! {

/// Some entry of the sequence equals the given session exactly.
pub open spec fn result_has(members: Seq<SessionView>, s: SessionView) -> bool {
    exists|j: int| 0 <= j < members.len() && members[j] == s
}

/// Fan-out delivers to everyone but the sender, exactly once each.
///
/// After a broadcast, every member other than the sender whose queue had
/// space holds exactly its old queue with the message appended once; the
/// sender's entry is unchanged (it receives its own message zero times);
/// and a member whose queue was full no longer appears at all.
pub proof fn lemma_broadcast_delivery(
    members: Seq<SessionView>,
    from: u64,
    msg: MessageView,
    cap: nat,
)
    requires
        distinct_ids(members),
    ensures
        forall|k: int| 0 <= k < members.len() && members[k].id == from
            ==> result_has(deliver(members, from, msg, cap), #[trigger] members[k]),
        forall|k: int|
            0 <= k < members.len() && #[trigger] members[k].id != from
            && members[k].queue.len() < cap
            ==> result_has(
                deliver(members, from, msg, cap),
                SessionView { id: members[k].id, queue: members[k].queue.push(msg) },
            ),
        forall|k: int|
            0 <= k < members.len() && #[trigger] members[k].id != from
            && members[k].queue.len() >= cap
            ==> !has_member(deliver(members, from, msg, cap), members[k].id),
    decreases members.len(),
{
    if members.len() == 0 {
    } else {
        let tail = members.subrange(1, members.len() as int);
        assert(distinct_ids(tail)) by {
            assert forall|a: int, b: int| 0 <= a < b < tail.len()
                implies tail[a].id != tail[b].id by {
                assert(tail[a] == members[a + 1] && tail[b] == members[b + 1]);
            }
        }
        lemma_broadcast_delivery(tail, from, msg, cap);
        lemma_deliver_ids(tail, from, msg, cap);
        let d = deliver(members, from, msg, cap);
        let dt = deliver(tail, from, msg, cap);
        let head = members[0];
        assert forall|k: int| 0 <= k < members.len() && members[k].id == from
            implies result_has(d, members[k]) by {
            if k == 0 {
                assert(d[0] == members[0]);
            } else {
                assert(tail[k - 1] == members[k]);
                assert(result_has(dt, tail[k - 1]));
                let j = choose|j: int| 0 <= j < dt.len() && dt[j] == tail[k - 1];
                if head.id == from || head.queue.len() < cap {
                    assert(d[j + 1] == dt[j]);
                } else {
                    assert(d[j] == dt[j]);
                }
            }
        }
        assert forall|k: int|
            0 <= k < members.len() && #[trigger] members[k].id != from
            && members[k].queue.len() < cap
            implies result_has(
                d,
                SessionView { id: members[k].id, queue: members[k].queue.push(msg) },
            ) by {
            if k == 0 {
                assert(d[0] == (SessionView { id: head.id, queue: head.queue.push(msg) }));
            } else {
                assert(tail[k - 1] == members[k]);
                let target = SessionView { id: members[k].id, queue: members[k].queue.push(msg) };
                assert(result_has(dt, target));
                let j = choose|j: int| 0 <= j < dt.len() && dt[j] == target;
                if head.id == from || head.queue.len() < cap {
                    assert(d[j + 1] == dt[j]);
                } else {
                    assert(d[j] == dt[j]);
                }
            }
        }
        assert forall|k: int|
            0 <= k < members.len() && #[trigger] members[k].id != from
            && members[k].queue.len() >= cap
            implies !has_member(d, members[k].id) by {
            if k == 0 {
                assert(d == dt);
                if has_member(dt, head.id) {
                    let j = choose|j: int| 0 <= j < dt.len() && dt[j].id == head.id;
                    assert(has_member(tail, dt[j].id));
                    let w = choose|w: int| 0 <= w < tail.len() && tail[w].id == head.id;
                    assert(tail[w] == members[w + 1]);
                    assert(false);
                }
            } else {
                assert(tail[k - 1] == members[k]);
                assert(!has_member(dt, members[k].id));
                if has_member(d, members[k].id) {
                    let j = choose|j: int| 0 <= j < d.len() && d[j].id == members[k].id;
                    if head.id == from || head.queue.len() < cap {
                        if j == 0 {
                            assert(d[0].id == head.id);
                            assert(false);
                        } else {
                            assert(d[j] == dt[j - 1]);
                            assert(false);
                        }
                    } else {
                        assert(d[j] == dt[j]);
                        assert(false);
                    }
                }
            }
        }
    }
}

/// The evicted ids are exactly the non-senders whose queues were full.
pub proof fn lemma_evicted_exact(members: Seq<SessionView>, from: u64, cap: nat)
    ensures
        forall|k: int|
            0 <= k < members.len() && #[trigger] members[k].id != from
            && members[k].queue.len() >= cap
            ==> evicted_ids(members, from, cap).contains(members[k].id),
        forall|sid: u64| #[trigger] evicted_ids(members, from, cap).contains(sid)
            ==> exists|k: int|
                0 <= k < members.len() && members[k].id == sid && members[k].id != from
                && members[k].queue.len() >= cap,
    decreases members.len(),
{
    if members.len() == 0 {
    } else {
        let tail = members.subrange(1, members.len() as int);
        lemma_evicted_exact(tail, from, cap);
        let e = evicted_ids(members, from, cap);
        let et = evicted_ids(tail, from, cap);
        assert forall|k: int|
            0 <= k < members.len() && #[trigger] members[k].id != from
            && members[k].queue.len() >= cap
            implies e.contains(members[k].id) by {
            if k == 0 {
                assert(e[0] == members[0].id);
            } else {
                assert(tail[k - 1] == members[k]);
                assert(et.contains(members[k].id));
                let j = choose|j: int| 0 <= j < et.len() && et[j] == members[k].id;
                if members[0].id != from && members[0].queue.len() >= cap {
                    assert(e[j + 1] == et[j]);
                } else {
                    assert(e[j] == et[j]);
                }
            }
        }
        assert forall|sid: u64| #[trigger] e.contains(sid)
            implies exists|k: int|
                0 <= k < members.len() && members[k].id == sid && members[k].id != from
                && members[k].queue.len() >= cap by {
            let j = choose|j: int| 0 <= j < e.len() && e[j] == sid;
            if members[0].id != from && members[0].queue.len() >= cap {
                if j == 0 {
                    assert(members[0].id == sid && members[0].queue.len() >= cap);
                } else {
                    assert(e[j] == et[j - 1]);
                    assert(et.contains(sid));
                    let k = choose|k: int|
                        0 <= k < tail.len() && tail[k].id == sid && tail[k].id != from
                        && tail[k].queue.len() >= cap;
                    assert(members[k + 1] == tail[k]);
                }
            } else {
                assert(e[j] == et[j]);
                assert(et.contains(sid));
                let k = choose|k: int|
                    0 <= k < tail.len() && tail[k].id == sid && tail[k].id != from
                    && tail[k].queue.len() >= cap;
                assert(members[k + 1] == tail[k]);
            }
        }
    }
}

/// A slow consumer is evicted and the room goes on without it: a member
/// whose queue is already full is evicted by the broadcast and is absent
/// afterwards, while every other member with queue space still receives the
/// message exactly once.
pub proof fn lemma_slow_consumer(
    members: Seq<SessionView>,
    from: u64,
    msg: MessageView,
    cap: nat,
    slow: int,
)
    requires
        distinct_ids(members),
        0 <= slow < members.len(),
        members[slow].id != from,
        members[slow].queue.len() >= cap,
    ensures
        evicted_ids(members, from, cap).contains(members[slow].id),
        !has_member(deliver(members, from, msg, cap), members[slow].id),
        forall|k: int|
            0 <= k < members.len() && #[trigger] members[k].id != from
            && members[k].queue.len() < cap
            ==> result_has(
                deliver(members, from, msg, cap),
                SessionView { id: members[k].id, queue: members[k].queue.push(msg) },
            ),
{
    lemma_broadcast_delivery(members, from, msg, cap);
    lemma_evicted_exact(members, from, cap);
}

/// Per-sender ordering: two messages fanned out one after the other from
/// the same sender land in a recipient's queue in that order. A recipient
/// with space for both holds its old queue followed by the first message
/// and then the second.
pub proof fn lemma_sender_order(
    members: Seq<SessionView>,
    from: u64,
    m1: MessageView,
    m2: MessageView,
    cap: nat,
    k: int,
)
    requires
        distinct_ids(members),
        0 <= k < members.len(),
        members[k].id != from,
        members[k].queue.len() + 1 < cap,
    ensures
        result_has(
            deliver(deliver(members, from, m1, cap), from, m2, cap),
            SessionView { id: members[k].id, queue: members[k].queue.push(m1).push(m2) },
        ),
        members[k].queue.push(m1).push(m2)[members[k].queue.len() as int] == m1,
        members[k].queue.push(m1).push(m2)[members[k].queue.len() as int + 1] == m2,
{
    let d1 = deliver(members, from, m1, cap);
    lemma_broadcast_delivery(members, from, m1, cap);
    lemma_deliver_ids(members, from, m1, cap);
    let mid = SessionView { id: members[k].id, queue: members[k].queue.push(m1) };
    assert(result_has(d1, mid));
    let j = choose|j: int| 0 <= j < d1.len() && d1[j] == mid;
    lemma_broadcast_delivery(d1, from, m2, cap);
    assert(d1[j].id != from && d1[j].queue.len() < cap);
    assert(result_has(
        deliver(d1, from, m2, cap),
        SessionView { id: d1[j].id, queue: d1[j].queue.push(m2) },
    ));
}

/// Leaving is idempotent: removing a session that a first leave already
/// removed changes nothing, however often it is repeated.
pub proof fn lemma_leave_idempotent(rooms: Seq<RoomView>, name: Seq<char>, sid: u64)
    requires
        rooms_wf(rooms),
    ensures
        leave_model(leave_model(rooms, name, sid), name, sid) == leave_model(rooms, name, sid),
{
    let r1 = leave_model(rooms, name, sid);
    if !has_room(rooms, name) {
    } else {
        let i = room_index(rooms, name);
        let r = rooms[i];
        assert(0 <= i < rooms.len() && r.name == name);
        assert(distinct_ids(r.members)) by {
            assert forall|a: int, b: int| 0 <= a < b < r.members.len()
                implies r.members[a].id != r.members[b].id by {
                assert(sessions_unique(rooms));
            }
        }
        if !has_member(r.members, sid) {
        } else {
            let j = member_index(r.members, sid);
            assert(0 <= j < r.members.len() && r.members[j].id == sid);
            let ms = r.members.remove(j);
            assert(!has_member(ms, sid)) by {
                if has_member(ms, sid) {
                    let l = choose|l: int| 0 <= l < ms.len() && ms[l].id == sid;
                    let l0 = if l < j { l } else { l + 1 };
                    assert(ms[l] == r.members[l0]);
                    assert(l0 != j);
                    assert(r.members[l0].id != r.members[j].id);
                }
            }
            if ms.len() == 0 {
                assert(r1 == rooms.remove(i));
                assert(!has_room(r1, name)) by {
                    if has_room(r1, name) {
                        let l = choose|l: int| 0 <= l < r1.len() && r1[l].name == name;
                        let l0 = if l < i { l } else { l + 1 };
                        assert(r1[l] == rooms[l0]);
                        assert(l0 != i);
                        assert(distinct_names(rooms));
                        assert(rooms[l0].name != rooms[i].name);
                    }
                }
            } else {
                assert(r1 == rooms.update(i, RoomView { name: r.name, members: ms }));
                assert(r1[i].name == name);
                assert(has_room(r1, name));
                assert(room_index(r1, name) == i) by {
                    let l = room_index(r1, name);
                    assert(0 <= l < r1.len() && r1[l].name == name);
                    if l != i {
                        assert(r1[l] == rooms[l]);
                        assert(distinct_names(rooms));
                        assert(rooms[l].name != rooms[i].name);
                    }
                }
                assert(leave_model(r1, name, sid) == r1);
            }
        }
    }
}

/// A room whose last member leaves is gone the moment the leave completes:
/// no empty room is ever observable in the directory.
pub proof fn lemma_last_leave_removes_room(rooms: Seq<RoomView>, name: Seq<char>, sid: u64)
    requires
        rooms_wf(rooms),
        has_room(rooms, name),
        rooms[room_index(rooms, name)].members.len() == 1,
        rooms[room_index(rooms, name)].members[0].id == sid,
    ensures
        !has_room(leave_model(rooms, name, sid), name),
{
    let i = room_index(rooms, name);
    let r = rooms[i];
    assert(has_member(r.members, sid));
    let j = member_index(r.members, sid);
    assert(0 <= j < r.members.len() && r.members[j].id == sid);
    assert(j == 0);
    assert(r.members.remove(0).len() == 0);
    let r1 = leave_model(rooms, name, sid);
    assert(r1 == rooms.remove(i));
    if has_room(r1, name) {
        let l = choose|l: int| 0 <= l < r1.len() && r1[l].name == name;
        let l0 = if l < i { l } else { l + 1 };
        assert(r1[l] == rooms[l0]);
        assert(l0 != i);
        assert(distinct_names(rooms));
        assert(rooms[l0].name != rooms[i].name);
    }
}

/// One membership operation, as the registry's owner serializes them:
/// a join when `is_join` holds, otherwise a leave.
pub ghost struct RegOp {
    pub is_join: bool,
    pub name: Seq<char>,
    pub sid: u64,
}

/// The directory reached by applying the operations, in order, to an empty
/// registry.
pub open spec fn run_ops(ops: Seq<RegOp>) -> Seq<RoomView>
    decreases ops.len(),
{
    if ops.len() == 0 {
        Seq::<RoomView>::empty()
    } else {
        let prev = run_ops(ops.drop_last());
        let op = ops.last();
        if op.is_join {
            join_model(prev, op.name, op.sid)
        } else {
            leave_model(prev, op.name, op.sid)
        }
    }
}

/// The set of session ids currently members of the named room.
pub open spec fn member_set(rooms: Seq<RoomView>, name: Seq<char>) -> Set<u64> {
    Set::new(|sid: u64|
        has_room(rooms, name) && has_member(rooms[room_index(rooms, name)].members, sid))
}

/// The sessions that joined the named room and did not leave afterwards.
pub open spec fn net_members(ops: Seq<RegOp>, name: Seq<char>) -> Set<u64>
    decreases ops.len(),
{
    if ops.len() == 0 {
        Set::<u64>::empty()
    } else {
        let prev = net_members(ops.drop_last(), name);
        let op = ops.last();
        if op.name != name {
            prev
        } else if op.is_join {
            prev.insert(op.sid)
        } else {
            prev.remove(op.sid)
        }
    }
}

/// Every join hands out a session id no other join uses, as the registry's
/// monotonic counter guarantees.
pub open spec fn fresh_joins(ops: Seq<RegOp>) -> bool {
    forall|i: int, j: int|
        0 <= i < j < ops.len() && ops[i].is_join && ops[j].is_join
        ==> ops[i].sid != ops[j].sid
}

/// The id belongs to a member of some room.
pub open spec fn id_in_rooms(rooms: Seq<RoomView>, sid: u64) -> bool {
    exists|i: int| 0 <= i < rooms.len() && has_member(rooms[i].members, sid)
}

/// Every id present in the directory was handed out by some join.
pub open spec fn ids_from_joins(rooms: Seq<RoomView>, ops: Seq<RegOp>) -> bool {
    forall|x: u64| #[trigger] id_in_rooms(rooms, x)
        ==> exists|i: int| 0 <= i < ops.len() && ops[i].is_join && ops[i].sid == x
}

/// The effect of one join on membership: the session is added to exactly
/// the room it names, and no other room or session changes.
pub proof fn lemma_join_model_effect(rooms: Seq<RoomView>, name: Seq<char>, sid: u64)
    requires
        rooms_wf(rooms),
        !id_in_rooms(rooms, sid),
    ensures
        rooms_wf(join_model(rooms, name, sid)),
        member_set(join_model(rooms, name, sid), name) == member_set(rooms, name).insert(sid),
        forall|m: Seq<char>| m != name
            ==> member_set(#[trigger] join_model(rooms, name, sid), m) == member_set(rooms, m),
        forall|x: u64| id_in_rooms(#[trigger] join_model(rooms, name, sid), x)
            ==> id_in_rooms(rooms, x) || x == sid,
{
    let s1 = join_model(rooms, name, sid);
    let fresh = SessionView { id: sid, queue: Seq::<MessageView>::empty() };
    assert forall|a: int, k: int|
        0 <= a < rooms.len() && 0 <= k < rooms[a].members.len()
        implies rooms[a].members[k].id != sid by {
        if rooms[a].members[k].id == sid {
            assert(has_member(rooms[a].members, rooms[a].members[k].id));
            assert(id_in_rooms(rooms, sid));
        }
    }
    if has_room(rooms, name) {
        let i = room_index(rooms, name);
        assert(0 <= i < rooms.len() && rooms[i].name == name);
        let nm = rooms[i].members.push(fresh);
        assert(s1 == rooms.update(i, RoomView { name: rooms[i].name, members: nm }));
        assert forall|l: int| 0 <= l < s1.len() implies s1[l].name == rooms[l].name by {}
        assert forall|a: int, b: int| 0 <= a < b < s1.len()
            implies s1[a].name != s1[b].name by {
            assert(rooms[a].name != rooms[b].name);
        }
        assert forall|a: int| 0 <= a < s1.len() implies s1[a].members.len() > 0 by {}
        assert forall|a: int, b: int, k: int, l: int|
            0 <= a < s1.len() && 0 <= b < s1.len()
            && 0 <= k < s1[a].members.len() && 0 <= l < s1[b].members.len()
            && (a != b || k != l)
            implies s1[a].members[k].id != s1[b].members[l].id by {
            let ka = s1[a].members[k];
            let lb = s1[b].members[l];
            if a == i && k == nm.len() - 1 {
                if b == i && l == nm.len() - 1 {
                } else {
                    assert(lb == rooms[b].members[l]);
                    assert(lb.id != sid);
                }
            } else {
                assert(ka == rooms[a].members[k]);
                if b == i && l == nm.len() - 1 {
                    assert(ka.id != sid);
                } else {
                    assert(lb == rooms[b].members[l]);
                }
            }
        }
        assert(room_index(s1, name) == i) by {
            assert(s1[i].name == name);
            assert(has_room(s1, name));
            let k = room_index(s1, name);
            assert(0 <= k < s1.len() && s1[k].name == name);
            if k != i {
                assert(rooms[k].name == name);
                assert(rooms[k].name != rooms[i].name);
            }
        }
        assert forall|x: u64| has_member(nm, x)
            implies has_member(rooms[i].members, x) || x == sid by {
            let w = choose|w: int| 0 <= w < nm.len() && nm[w].id == x;
            if w < nm.len() - 1 {
                assert(nm[w] == rooms[i].members[w]);
            }
        }
        assert forall|x: u64| has_member(rooms[i].members, x) implies has_member(nm, x) by {
            let w = choose|w: int| 0 <= w < rooms[i].members.len() && rooms[i].members[w].id == x;
            assert(nm[w].id == x);
        }
        assert(has_member(nm, sid)) by {
            assert(nm[nm.len() - 1].id == sid);
        }
        assert(member_set(s1, name) =~= member_set(rooms, name).insert(sid));
        assert forall|m: Seq<char>| m != name
            implies member_set(s1, m) == member_set(rooms, m) by {
            assert forall|k: int| 0 <= k < s1.len() implies (s1[k].name == m) == (rooms[k].name == m) by {}
            if has_room(rooms, m) {
                let k = room_index(rooms, m);
                assert(0 <= k < rooms.len() && rooms[k].name == m);
                assert(s1[k].name == m);
                assert(has_room(s1, m));
                assert(room_index(s1, m) == k) by {
                    let k1 = room_index(s1, m);
                    assert(0 <= k1 < s1.len() && s1[k1].name == m);
                    if k1 != k {
                        assert(rooms[k1].name == m);
                        assert(rooms[k1].name != rooms[k].name);
                    }
                }
                assert(k != i);
                assert(s1[k].members == rooms[k].members);
                assert(member_set(s1, m) =~= member_set(rooms, m));
            } else {
                assert(!has_room(s1, m)) by {
                    if has_room(s1, m) {
                        let k1 = room_index(s1, m);
                        assert(rooms[k1].name == m);
                        assert(has_room(rooms, m));
                    }
                }
                assert(member_set(s1, m) =~= member_set(rooms, m));
            }
        }
        assert forall|x: u64| id_in_rooms(s1, x)
            implies id_in_rooms(rooms, x) || x == sid by {
            let a = choose|a: int| 0 <= a < s1.len() && has_member(s1[a].members, x);
            let w = choose|w: int| 0 <= w < s1[a].members.len() && s1[a].members[w].id == x;
            if a == i && w == nm.len() - 1 {
            } else {
                assert(s1[a].members[w] == rooms[a].members[w]);
                assert(has_member(rooms[a].members, x));
            }
        }
    } else {
        let nr = RoomView { name: name, members: seq![fresh] };
        assert(s1 == rooms.push(nr));
        assert forall|l: int| 0 <= l < rooms.len() implies s1[l] == rooms[l] by {}
        assert(s1[rooms.len() as int] == nr);
        assert forall|a: int, b: int| 0 <= a < b < s1.len()
            implies s1[a].name != s1[b].name by {
            if b == rooms.len() {
                assert(s1[a] == rooms[a]);
                assert(rooms[a].name != name) by {
                    if rooms[a].name == name {
                        assert(has_room(rooms, name));
                    }
                }
            } else {
                assert(rooms[a].name != rooms[b].name);
            }
        }
        assert forall|a: int| 0 <= a < s1.len() implies s1[a].members.len() > 0 by {}
        assert forall|a: int, b: int, k: int, l: int|
            0 <= a < s1.len() && 0 <= b < s1.len()
            && 0 <= k < s1[a].members.len() && 0 <= l < s1[b].members.len()
            && (a != b || k != l)
            implies s1[a].members[k].id != s1[b].members[l].id by {
            if a == rooms.len() {
                assert(b != rooms.len() || (k == 0 && l == 0));
                assert(s1[b].members[l] == rooms[b].members[l]);
                assert(s1[b].members[l].id != sid);
            } else if b == rooms.len() {
                assert(s1[a].members[k] == rooms[a].members[k]);
                assert(s1[a].members[k].id != sid);
            } else {
                assert(s1[a].members[k] == rooms[a].members[k]);
                assert(s1[b].members[l] == rooms[b].members[l]);
            }
        }
        assert(room_index(s1, name) == rooms.len()) by {
            assert(has_room(s1, name));
            let k = room_index(s1, name);
            assert(0 <= k < s1.len() && s1[k].name == name);
            if k != rooms.len() {
                assert(rooms[k].name == name);
                assert(has_room(rooms, name));
            }
        }
        assert forall|x: u64| has_member(nr.members, x) implies x == sid by {
            let w = choose|w: int| 0 <= w < nr.members.len() && nr.members[w].id == x;
            assert(w == 0);
        }
        assert(nr.members[0].id == sid);
        assert(member_set(s1, name) =~= member_set(rooms, name).insert(sid));
        assert forall|m: Seq<char>| m != name
            implies member_set(s1, m) == member_set(rooms, m) by {
            if has_room(rooms, m) {
                let k = room_index(rooms, m);
                assert(0 <= k < rooms.len() && rooms[k].name == m);
                assert(s1[k].name == m);
                assert(has_room(s1, m));
                assert(room_index(s1, m) == k) by {
                    let k1 = room_index(s1, m);
                    assert(0 <= k1 < s1.len() && s1[k1].name == m);
                    if k1 != k {
                        if k1 == rooms.len() {
                            assert(s1[k1].name == name);
                        } else {
                            assert(rooms[k1].name == m);
                            assert(rooms[k1].name != rooms[k].name);
                        }
                    }
                }
                assert(s1[k].members == rooms[k].members);
                assert(member_set(s1, m) =~= member_set(rooms, m));
            } else {
                assert(!has_room(s1, m)) by {
                    if has_room(s1, m) {
                        let k1 = room_index(s1, m);
                        if k1 == rooms.len() {
                            assert(s1[k1].name == name);
                        } else {
                            assert(rooms[k1].name == m);
                            assert(has_room(rooms, m));
                        }
                    }
                }
                assert(member_set(s1, m) =~= member_set(rooms, m));
            }
        }
        assert forall|x: u64| id_in_rooms(s1, x)
            implies id_in_rooms(rooms, x) || x == sid by {
            let a = choose|a: int| 0 <= a < s1.len() && has_member(s1[a].members, x);
            if a == rooms.len() {
                assert(has_member(nr.members, x));
            } else {
                assert(s1[a] == rooms[a]);
            }
        }
    }
}

/// The effect of one leave on membership: the session is removed from
/// exactly the room it names (a no-op when absent), and no other room or
/// session changes.
pub proof fn lemma_leave_model_effect(rooms: Seq<RoomView>, name: Seq<char>, sid: u64)
    requires
        rooms_wf(rooms),
    ensures
        rooms_wf(leave_model(rooms, name, sid)),
        member_set(leave_model(rooms, name, sid), name) == member_set(rooms, name).remove(sid),
        forall|m: Seq<char>| m != name
            ==> member_set(#[trigger] leave_model(rooms, name, sid), m) == member_set(rooms, m),
        forall|x: u64| id_in_rooms(#[trigger] leave_model(rooms, name, sid), x)
            ==> id_in_rooms(rooms, x),
{
    let s1 = leave_model(rooms, name, sid);
    if !has_room(rooms, name) {
        assert(s1 == rooms);
        assert(member_set(rooms, name) =~= member_set(rooms, name).remove(sid));
        return;
    }
    let i = room_index(rooms, name);
    assert(0 <= i < rooms.len() && rooms[i].name == name);
    let r = rooms[i];
    assert(distinct_ids(r.members)) by {
        assert forall|a: int, b: int| 0 <= a < b < r.members.len()
            implies r.members[a].id != r.members[b].id by {
            assert(sessions_unique(rooms));
        }
    }
    if !has_member(r.members, sid) {
        assert(s1 == rooms);
        assert(!member_set(rooms, name).contains(sid));
        assert(member_set(rooms, name) =~= member_set(rooms, name).remove(sid));
        return;
    }
    let j = member_index(r.members, sid);
    assert(0 <= j < r.members.len() && r.members[j].id == sid);
    let ms = r.members.remove(j);
    lemma_member_remove_ids(r.members, j);
    assert forall|x: u64| has_member(ms, x)
        implies has_member(r.members, x) && x != sid by {
        let l = choose|l: int| 0 <= l < ms.len() && ms[l].id == x;
        let l0 = if l < j { l } else { l + 1 };
        assert(ms[l] == r.members[l0]);
        assert(l0 != j);
        assert(r.members[l0].id != r.members[j].id);
    }
    assert forall|x: u64| has_member(r.members, x) && x != sid
        implies has_member(ms, x) by {
        let w = choose|w: int| 0 <= w < r.members.len() && r.members[w].id == x;
        assert(w != j);
        let l = if w < j { w } else { w - 1 };
        assert(ms[l] == r.members[w]);
    }
    if ms.len() == 0 {
        assert(s1 == rooms.remove(i));
        crate::registry::lemma_wf_after_room_remove(rooms, i, 0);
        assert(!has_room(s1, name)) by {
            if has_room(s1, name) {
                let l = choose|l: int| 0 <= l < s1.len() && s1[l].name == name;
                let l0 = if l < i { l } else { l + 1 };
                assert(s1[l] == rooms[l0]);
                assert(l0 != i);
                assert(rooms[l0].name != rooms[i].name);
            }
        }
        assert forall|x: u64| member_set(rooms, name).contains(x) implies x == sid by {
            let w = choose|w: int| 0 <= w < r.members.len() && r.members[w].id == x;
            assert(w == 0 && j == 0);
        }
        assert(member_set(s1, name) =~= member_set(rooms, name).remove(sid));
        assert forall|m: Seq<char>| m != name
            implies member_set(s1, m) == member_set(rooms, m) by {
            if has_room(rooms, m) {
                let k = room_index(rooms, m);
                assert(0 <= k < rooms.len() && rooms[k].name == m);
                assert(k != i);
                let k1 = if k < i { k } else { k - 1 };
                assert(s1[k1] == rooms[k]);
                assert(has_room(s1, m));
                assert(room_index(s1, m) == k1) by {
                    let w = room_index(s1, m);
                    assert(0 <= w < s1.len() && s1[w].name == m);
                    if w != k1 {
                        let w0 = if w < i { w } else { w + 1 };
                        assert(s1[w] == rooms[w0]);
                        assert(w0 != k);
                        assert(rooms[w0].name != rooms[k].name);
                    }
                }
                assert(member_set(s1, m) =~= member_set(rooms, m));
            } else {
                assert(!has_room(s1, m)) by {
                    if has_room(s1, m) {
                        let w = room_index(s1, m);
                        let w0 = if w < i { w } else { w + 1 };
                        assert(s1[w] == rooms[w0]);
                        assert(has_room(rooms, m));
                    }
                }
                assert(member_set(s1, m) =~= member_set(rooms, m));
            }
        }
        assert forall|x: u64| id_in_rooms(s1, x) implies id_in_rooms(rooms, x) by {
            let a = choose|a: int| 0 <= a < s1.len() && has_member(s1[a].members, x);
            let a0 = if a < i { a } else { a + 1 };
            assert(s1[a] == rooms[a0]);
        }
    } else {
        assert(s1 == rooms.update(i, RoomView { name: r.name, members: ms }));
        crate::registry::lemma_wf_after_member_shrink(rooms, s1, i, 0);
        assert forall|l: int| 0 <= l < s1.len() implies s1[l].name == rooms[l].name by {}
        assert(room_index(s1, name) == i) by {
            assert(s1[i].name == name);
            assert(has_room(s1, name));
            let k = room_index(s1, name);
            assert(0 <= k < s1.len() && s1[k].name == name);
            if k != i {
                assert(rooms[k].name == name);
                assert(rooms[k].name != rooms[i].name);
            }
        }
        assert(member_set(s1, name) =~= member_set(rooms, name).remove(sid));
        assert forall|m: Seq<char>| m != name
            implies member_set(s1, m) == member_set(rooms, m) by {
            if has_room(rooms, m) {
                let k = room_index(rooms, m);
                assert(0 <= k < rooms.len() && rooms[k].name == m);
                assert(s1[k].name == m);
                assert(has_room(s1, m));
                assert(room_index(s1, m) == k) by {
                    let k1 = room_index(s1, m);
                    assert(0 <= k1 < s1.len() && s1[k1].name == m);
                    if k1 != k {
                        assert(rooms[k1].name == m);
                        assert(rooms[k1].name != rooms[k].name);
                    }
                }
                assert(k != i);
                assert(s1[k].members == rooms[k].members);
                assert(member_set(s1, m) =~= member_set(rooms, m));
            } else {
                assert(!has_room(s1, m)) by {
                    if has_room(s1, m) {
                        let k1 = room_index(s1, m);
                        assert(rooms[k1].name == m);
                        assert(has_room(rooms, m));
                    }
                }
                assert(member_set(s1, m) =~= member_set(rooms, m));
            }
        }
        assert forall|x: u64| id_in_rooms(s1, x) implies id_in_rooms(rooms, x) by {
            let a = choose|a: int| 0 <= a < s1.len() && has_member(s1[a].members, x);
            if a == i {
                assert(has_member(ms, x));
                assert(has_member(r.members, x));
                assert(has_member(rooms[i].members, x));
            } else {
                assert(s1[a] == rooms[a]);
            }
        }
    }
}

/// Exact membership after any interleaving of joins and leaves, serialized
/// through the registry: starting from an empty registry, the members of
/// any room are exactly the sessions that joined it and did not leave
/// afterwards, and the directory stays well-formed throughout -- in
/// particular at most one room ever exists per name, and no empty room
/// survives an operation.
pub proof fn lemma_registry_history(ops: Seq<RegOp>)
    requires
        fresh_joins(ops),
    ensures
        rooms_wf(run_ops(ops)),
        ids_from_joins(run_ops(ops), ops),
        forall|name: Seq<char>| member_set(run_ops(ops), name) == net_members(ops, name),
    decreases ops.len(),
{
    if ops.len() == 0 {
        let s = run_ops(ops);
        assert(s == Seq::<RoomView>::empty());
        assert forall|name: Seq<char>|
            member_set(s, name) == net_members(ops, name) by {
            assert(!has_room(s, name));
            assert(member_set(s, name) =~= Set::<u64>::empty());
        }
        assert forall|x: u64| #[trigger] id_in_rooms(s, x) implies false by {
            let a = choose|a: int| 0 <= a < s.len() && has_member(s[a].members, x);
        }
    } else {
        let prefix = ops.drop_last();
        let op = ops.last();
        assert(fresh_joins(prefix)) by {
            assert forall|i: int, j: int|
                0 <= i < j < prefix.len() && prefix[i].is_join && prefix[j].is_join
                implies prefix[i].sid != prefix[j].sid by {
                assert(prefix[i] == ops[i] && prefix[j] == ops[j]);
            }
        }
        lemma_registry_history(prefix);
        let s0 = run_ops(prefix);
        let s1 = run_ops(ops);
        if op.is_join {
            assert(s1 == join_model(s0, op.name, op.sid));
            assert(!id_in_rooms(s0, op.sid)) by {
                if id_in_rooms(s0, op.sid) {
                    let w = choose|w: int|
                        0 <= w < prefix.len() && prefix[w].is_join && prefix[w].sid == op.sid;
                    assert(ops[w] == prefix[w]);
                    assert(ops[w].is_join && ops[ops.len() - 1].is_join);
                    assert(ops[w].sid != ops[ops.len() - 1].sid);
                }
            }
            lemma_join_model_effect(s0, op.name, op.sid);
            assert forall|name: Seq<char>|
                member_set(s1, name) == net_members(ops, name) by {
                if name == op.name {
                    assert(member_set(s1, name) == member_set(s0, name).insert(op.sid));
                    assert(member_set(s0, name) == net_members(prefix, name));
                    assert(net_members(ops, name) == net_members(prefix, name).insert(op.sid));
                } else {
                    assert(member_set(s1, name) == member_set(s0, name));
                    assert(net_members(ops, name) == net_members(prefix, name));
                }
            }
            assert forall|x: u64| #[trigger] id_in_rooms(s1, x)
                implies exists|i: int| 0 <= i < ops.len() && ops[i].is_join && ops[i].sid == x by {
                if x == op.sid {
                    assert(ops[ops.len() - 1].is_join && ops[ops.len() - 1].sid == x);
                } else {
                    assert(id_in_rooms(s0, x));
                    let w = choose|w: int|
                        0 <= w < prefix.len() && prefix[w].is_join && prefix[w].sid == x;
                    assert(ops[w] == prefix[w]);
                    assert(ops[w].is_join && ops[w].sid == x);
                }
            }
        } else {
            assert(s1 == leave_model(s0, op.name, op.sid));
            lemma_leave_model_effect(s0, op.name, op.sid);
            assert forall|name: Seq<char>|
                member_set(s1, name) == net_members(ops, name) by {
                if name == op.name {
                    assert(member_set(s1, name) == member_set(s0, name).remove(op.sid));
                    assert(member_set(s0, name) == net_members(prefix, name));
                    assert(net_members(ops, name) == net_members(prefix, name).remove(op.sid));
                } else {
                    assert(member_set(s1, name) == member_set(s0, name));
                    assert(net_members(ops, name) == net_members(prefix, name));
                }
            }
            assert forall|x: u64| #[trigger] id_in_rooms(s1, x)
                implies exists|i: int| 0 <= i < ops.len() && ops[i].is_join && ops[i].sid == x by {
                assert(id_in_rooms(s0, x));
                let w = choose|w: int|
                    0 <= w < prefix.len() && prefix[w].is_join && prefix[w].sid == x;
                assert(ops[w] == prefix[w]);
                assert(ops[w].is_join && ops[w].sid == x);
            }
        }
    }
}

} // verus!
