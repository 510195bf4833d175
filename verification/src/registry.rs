//! The registry: the process-wide directory of rooms, and the single
//! serialization point for room creation and destruction. A room exists in
//! the registry exactly as long as it has at least one member.

use vstd::prelude::*;
use crate::message::{Message, MessageView};
use crate::room::{Room, RoomView, deliver, evicted_ids};
use crate::session::{Session, SessionView, distinct_ids, has_member, member_index, msg_views};

verus! {

/// The views of a sequence of rooms.
pub open spec fn room_views(rs: Seq<Room>) -> Seq<RoomView> {
    rs.map_values(|r: Room| r@)
}

/// Some room in the sequence carries the given name.
pub open spec fn has_room(rooms: Seq<RoomView>, name: Seq<char>) -> bool {
    exists|i: int| 0 <= i < rooms.len() && rooms[i].name == name
}

/// The position of the room carrying the given name (unique when names are
/// distinct).
pub open spec fn room_index(rooms: Seq<RoomView>, name: Seq<char>) -> int {
    choose|i: int| 0 <= i < rooms.len() && rooms[i].name == name
}

/// No two rooms share a name: at most one room object exists per id.
pub open spec fn distinct_names(rooms: Seq<RoomView>) -> bool {
    forall|i: int, j: int| 0 <= i < j < rooms.len() ==> rooms[i].name != rooms[j].name
}

/// Every session id occurs at most once across all rooms: a session belongs
/// to exactly one room at a time.
pub open spec fn sessions_unique(rooms: Seq<RoomView>) -> bool {
    forall|i: int, j: int, k: int, l: int|
        0 <= i < rooms.len() && 0 <= j < rooms.len()
        && 0 <= k < rooms[i].members.len() && 0 <= l < rooms[j].members.len()
        && (i != j || k != l)
        ==> rooms[i].members[k].id != rooms[j].members[l].id
}

/// Every session id is below the bound (the registry's id counter).
pub open spec fn ids_bounded(rooms: Seq<RoomView>, bound: u64) -> bool {
    forall|i: int, k: int|
        0 <= i < rooms.len() && 0 <= k < rooms[i].members.len()
        ==> rooms[i].members[k].id < bound
}

/// Well-formed room directory: distinct names, no empty room retained,
/// and each session in exactly one room.
pub open spec fn rooms_wf(rooms: Seq<RoomView>) -> bool {
    &&& distinct_names(rooms)
    &&& forall|i: int| 0 <= i < rooms.len() ==> rooms[i].members.len() > 0
    &&& sessions_unique(rooms)
}

/// The directory after a join: the session is appended to the room with the
/// given name, the room being created first when absent.
pub open spec fn join_model(rooms: Seq<RoomView>, name: Seq<char>, sid: u64) -> Seq<RoomView> {
    let fresh = SessionView { id: sid, queue: Seq::<MessageView>::empty() };
    if has_room(rooms, name) {
        let i = room_index(rooms, name);
        rooms.update(i, RoomView { name: rooms[i].name, members: rooms[i].members.push(fresh) })
    } else {
        rooms.push(RoomView { name: name, members: seq![fresh] })
    }
}

/// The directory after a leave: the session is removed from the room with
/// the given name, and the room itself is removed the instant it becomes
/// empty. Leaving an absent room, or a room one is not a member of, changes
/// nothing.
pub open spec fn leave_model(rooms: Seq<RoomView>, name: Seq<char>, sid: u64) -> Seq<RoomView> {
    if !has_room(rooms, name) {
        rooms
    } else {
        let i = room_index(rooms, name);
        let r = rooms[i];
        if !has_member(r.members, sid) {
            rooms
        } else {
            let ms = r.members.remove(member_index(r.members, sid));
            if ms.len() == 0 {
                rooms.remove(i)
            } else {
                rooms.update(i, RoomView { name: r.name, members: ms })
            }
        }
    }
}

/// The directory after a broadcast in the named room; the room is removed
/// if eviction left it empty. Broadcasting to an absent room changes
/// nothing.
pub open spec fn broadcast_model(
    rooms: Seq<RoomView>,
    name: Seq<char>,
    from: u64,
    msg: MessageView,
    cap: nat,
) -> Seq<RoomView> {
    if !has_room(rooms, name) {
        rooms
    } else {
        let i = room_index(rooms, name);
        let ms = deliver(rooms[i].members, from, msg, cap);
        if ms.len() == 0 {
            rooms.remove(i)
        } else {
            rooms.update(i, RoomView { name: rooms[i].name, members: ms })
        }
    }
}

/// The ids evicted by a broadcast in the named room.
pub open spec fn broadcast_evicted(
    rooms: Seq<RoomView>,
    name: Seq<char>,
    from: u64,
    cap: nat,
) -> Seq<u64> {
    if !has_room(rooms, name) {
        Seq::<u64>::empty()
    } else {
        evicted_ids(rooms[room_index(rooms, name)].members, from, cap)
    }
}

/// The directory after one session's outbound queue is drained.
pub open spec fn drain_model(rooms: Seq<RoomView>, name: Seq<char>, sid: u64) -> Seq<RoomView> {
    if !has_room(rooms, name) {
        rooms
    } else {
        let i = room_index(rooms, name);
        let r = rooms[i];
        if !has_member(r.members, sid) {
            rooms
        } else {
            let j = member_index(r.members, sid);
            rooms.update(i, RoomView {
                name: r.name,
                members: r.members.update(j, SessionView { id: sid, queue: Seq::<MessageView>::empty() }),
            })
        }
    }
}

/// The outbound queue of the given session, empty when absent.
pub open spec fn queue_of(rooms: Seq<RoomView>, name: Seq<char>, sid: u64) -> Seq<MessageView> {
    if has_room(rooms, name) && has_member(rooms[room_index(rooms, name)].members, sid) {
        let r = rooms[room_index(rooms, name)];
        r.members[member_index(r.members, sid)].queue
    } else {
        Seq::<MessageView>::empty()
    }
}

/// Every id in the result of a fan-out belonged to a member before it, and
/// distinctness of ids survives the fan-out.
pub proof fn lemma_deliver_ids(members: Seq<SessionView>, from: u64, msg: MessageView, cap: nat)
    ensures
        forall|j: int| 0 <= j < deliver(members, from, msg, cap).len()
            ==> has_member(members, #[trigger] deliver(members, from, msg, cap)[j].id),
        distinct_ids(members) ==> distinct_ids(deliver(members, from, msg, cap)),
    decreases members.len(),
{
    if members.len() == 0 {
    } else {
        let tail = members.subrange(1, members.len() as int);
        lemma_deliver_ids(tail, from, msg, cap);
        let d = deliver(members, from, msg, cap);
        let dt = deliver(tail, from, msg, cap);
        assert forall|j: int| 0 <= j < dt.len() implies has_member(members, dt[j].id) by {
            assert(has_member(tail, dt[j].id));
            let w = choose|i: int| 0 <= i < tail.len() && tail[i].id == dt[j].id;
            assert(members[w + 1].id == dt[j].id);
        }
        if members[0].id == from || members[0].queue.len() < cap {
            assert forall|j: int| 0 <= j < d.len() implies has_member(members, d[j].id) by {
                if j == 0 {
                    assert(members[0].id == d[0].id);
                } else {
                    assert(d[j] == dt[j - 1]);
                }
            }
            if distinct_ids(members) {
                assert forall|a: int, b: int| 0 <= a < b < d.len() implies d[a].id != d[b].id by {
                    assert(distinct_ids(tail));
                    if a == 0 {
                        assert(has_member(tail, dt[b - 1].id) || !(0 <= b - 1 < dt.len()));
                        let w = choose|i: int| 0 <= i < tail.len() && tail[i].id == dt[b - 1].id;
                        assert(members[w + 1].id == dt[b - 1].id);
                        assert(members[0].id != members[w + 1].id);
                    } else {
                        assert(d[a] == dt[a - 1] && d[b] == dt[b - 1]);
                    }
                }
            }
        } else {
            assert(d == dt);
        }
    }
}

/// The relay's room directory together with the session id counter and the
/// shared queue bound.
pub struct Registry {
    /// Current rooms; every room holds at least one member.
    pub rooms: Vec<Room>,
    /// The next session id to hand out; ids are process-unique.
    pub next_id: u64,
    /// Bound on every session's outbound queue.
    pub cap: usize,
}

impl View for Registry {
    type V = Seq<RoomView>;

    open spec fn view(&self) -> Seq<RoomView> {
        room_views(self.rooms@)
    }
}

impl Registry {
    /// The session id the next join will assign.
    pub open spec fn counter(&self) -> u64 {
        self.next_id
    }

    /// The outbound queue bound every room enforces.
    pub open spec fn capacity(&self) -> nat {
        self.cap as nat
    }

    /// Well-formed registry: well-formed directory, ids below the counter,
    /// and a positive queue bound.
    pub open spec fn wf(&self) -> bool {
        &&& rooms_wf(self@)
        &&& ids_bounded(self@, self.next_id)
        &&& self.cap >= 1
    }

    /// An empty registry enforcing the given queue bound.
    pub fn new(cap: usize) -> (r: Registry)
        requires
            cap >= 1,
        ensures
            r.wf(),
            r@ == Seq::<RoomView>::empty(),
            r.counter() == 0,
            r.capacity() == cap as nat,
    {
        let r = Registry { rooms: Vec::new(), next_id: 0, cap };
        assert(r@ =~= Seq::<RoomView>::empty());
        r
    }

    /// The position of the room with the given name, if present.
    fn find_room(&self, name: &str) -> (r: Option<usize>)
        ensures
            match r {
                Some(i) => i < self@.len() && self@[i as int].name == name@
                    && (forall|k: int| 0 <= k < i ==> self@[k].name != name@),
                None => !has_room(self@, name@),
            },
    {
        let key: String = name.to_owned();
        let mut i: usize = 0;
        while i < self.rooms.len()
            invariant
                i <= self.rooms.len(),
                key@ == name@,
                forall|k: int| 0 <= k < i ==> self@[k].name != name@,
            decreases self.rooms.len() - i,
        {
            if self.rooms[i].name == key {
                return Some(i);
            }
            i += 1;
        }
        None
    }

    /// Adds a new session to the named room, creating the room when it is
    /// absent, and returns the fresh process-unique session id. Concurrent
    /// callers are serialized by the registry's owner, so at most one room
    /// ever exists per name.
    pub fn join(&mut self, name: &str) -> (sid: u64)
        requires
            old(self).wf(),
            old(self).counter() < u64::MAX,
        ensures
            final(self).wf(),
            sid == old(self).counter(),
            final(self).counter() == old(self).counter() + 1,
            final(self).capacity() == old(self).capacity(),
            final(self)@ == join_model(old(self)@, name@, sid),
    {
        let ghost pre = self@;
        let sid = self.next_id;
        self.next_id = self.next_id + 1;
        let session = Session::new(sid);
        let ghost fresh = (SessionView { id: sid, queue: Seq::<MessageView>::empty() });
        match self.find_room(name) {
            None => {
                let room = Room::new(name.to_owned(), session);
                self.rooms.push(room);
                proof {
                    let post = self@;
                    assert(post =~= pre.push(RoomView { name: name@, members: seq![fresh] }));
                    assert(post == join_model(pre, name@, sid));
                    assert forall|i: int| 0 <= i < post.len() implies post[i].members.len() > 0 by {}
                    assert forall|i: int, j: int| 0 <= i < j < post.len()
                        implies post[i].name != post[j].name by {
                        if j == post.len() - 1 {
                            assert(!has_room(pre, name@));
                            assert(pre[i].name != name@);
                        }
                    }
                    assert forall|i: int, j: int, k: int, l: int|
                        0 <= i < post.len() && 0 <= j < post.len()
                        && 0 <= k < post[i].members.len() && 0 <= l < post[j].members.len()
                        && (i != j || k != l)
                        implies post[i].members[k].id != post[j].members[l].id by {
                        if i == post.len() - 1 && j == post.len() - 1 {
                        } else if i == post.len() - 1 {
                            assert(post[j].members[l].id < sid);
                        } else if j == post.len() - 1 {
                            assert(post[i].members[k].id < sid);
                        }
                    }
                    assert(ids_bounded(post, self.next_id));
                }
                sid
            }
            Some(i) => {
                proof {
                    lemma_room_index_of(pre, name@, i as int);
                }
                let mut room = self.rooms.remove(i);
                room.add_member(session);
                self.rooms.insert(i, room);
                proof {
                    let post = self@;
                    let updated = (RoomView {
                        name: pre[i as int].name,
                        members: pre[i as int].members.push(fresh),
                    });
                    assert(post =~= pre.update(i as int, updated));
                    assert(post == join_model(pre, name@, sid));
                    assert forall|a: int| 0 <= a < post.len() implies post[a].members.len() > 0 by {}
                    assert forall|a: int, b: int| 0 <= a < b < post.len()
                        implies post[a].name != post[b].name by {}
                    assert forall|a: int, b: int, k: int, l: int|
                        0 <= a < post.len() && 0 <= b < post.len()
                        && 0 <= k < post[a].members.len() && 0 <= l < post[b].members.len()
                        && (a != b || k != l)
                        implies post[a].members[k].id != post[b].members[l].id by {
                        let na = post[a].members.len();
                        let nb = post[b].members.len();
                        if a == i as int && k == na - 1 && pre[a].members.len() == k {
                            if b == i as int && l == nb - 1 && pre[b].members.len() == l {
                            } else {
                                assert(post[b].members[l] == pre[b].members[l]);
                                assert(post[b].members[l].id < sid);
                            }
                        } else {
                            assert(post[a].members[k] == pre[a].members[k]);
                            if b == i as int && l == nb - 1 && pre[b].members.len() == l {
                                assert(post[a].members[k].id < sid);
                            } else {
                                assert(post[b].members[l] == pre[b].members[l]);
                            }
                        }
                    }
                    assert(ids_bounded(post, self.next_id));
                }
                sid
            }
        }
    }

    /// Removes the session from the named room; the room itself is removed
    /// the instant its last member leaves. Leaving an absent room, or one
    /// the session is not a member of, is a no-op, so double cleanup on
    /// racing error paths is harmless.
    pub fn leave(&mut self, name: &str, sid: u64)
        requires
            old(self).wf(),
        ensures
            final(self).wf(),
            final(self).counter() == old(self).counter(),
            final(self).capacity() == old(self).capacity(),
            final(self)@ == leave_model(old(self)@, name@, sid),
    {
        let ghost pre = self@;
        match self.find_room(name) {
            None => {}
            Some(i) => {
                proof {
                    lemma_room_index_of(pre, name@, i as int);
                    assert(distinct_ids(pre[i as int].members)) by {
                        assert forall|a: int, b: int|
                            0 <= a < b < pre[i as int].members.len()
                            implies pre[i as int].members[a].id != pre[i as int].members[b].id by {
                            assert(sessions_unique(pre));
                        }
                    }
                }
                let mut room = self.rooms.remove(i);
                let removed = room.remove_member(sid);
                if removed {
                    let ghost j = member_index(pre[i as int].members, sid);
                    let ghost ms = pre[i as int].members.remove(j);
                    if room.member_count() > 0 {
                        self.rooms.insert(i, room);
                        proof {
                            let post = self@;
                            assert(post =~= pre.update(
                                i as int,
                                RoomView { name: pre[i as int].name, members: ms },
                            ));
                            assert(post == leave_model(pre, name@, sid));
                            assert(has_member(pre[i as int].members, sid));
                            lemma_member_remove_ids(pre[i as int].members, j);
                            lemma_wf_after_member_shrink(pre, post, i as int, self.next_id);
                        }
                    } else {
                        proof {
                            let post = self@;
                            assert(post =~= pre.remove(i as int));
                            assert(ms.len() == 0);
                            assert(post == leave_model(pre, name@, sid));
                            lemma_wf_after_room_remove(pre, i as int, self.next_id);
                        }
                    }
                } else {
                    self.rooms.insert(i, room);
                    proof {
                        let post = self@;
                        assert(post =~= pre.update(i as int, pre[i as int]));
                        assert(post =~= pre);
                        assert(post == leave_model(pre, name@, sid));
                    }
                }
            }
        }
    }

    /// Fans `msg` out from session `from` inside the named room: every other
    /// member receives the message at the tail of its outbound queue, except
    /// that a member whose queue is already full is evicted instead, and the
    /// room is removed if eviction empties it. The broadcaster never waits
    /// on any recipient. Returns the evicted ids, whose connections the
    /// caller must close. Broadcasting to an absent room is a silent no-op,
    /// so in-flight messages racing a teardown are harmless.
    pub fn broadcast(&mut self, name: &str, from: u64, msg: &Message) -> (evicted: Vec<u64>)
        requires
            old(self).wf(),
        ensures
            final(self).wf(),
            final(self).counter() == old(self).counter(),
            final(self).capacity() == old(self).capacity(),
            final(self)@ == broadcast_model(old(self)@, name@, from, msg@, old(self).capacity()),
            evicted@ == broadcast_evicted(old(self)@, name@, from, old(self).capacity()),
    {
        let ghost pre = self@;
        match self.find_room(name) {
            None => {
                let r: Vec<u64> = Vec::new();
                assert(r@ =~= Seq::<u64>::empty());
                r
            }
            Some(i) => {
                proof {
                    lemma_room_index_of(pre, name@, i as int);
                    assert(distinct_ids(pre[i as int].members)) by {
                        assert forall|a: int, b: int|
                            0 <= a < b < pre[i as int].members.len()
                            implies pre[i as int].members[a].id != pre[i as int].members[b].id by {
                            assert(sessions_unique(pre));
                        }
                    }
                }
                let mut room = self.rooms.remove(i);
                let evicted = room.broadcast(from, msg, self.cap);
                let ghost ms = deliver(pre[i as int].members, from, msg@, self.cap as nat);
                proof {
                    lemma_deliver_ids(pre[i as int].members, from, msg@, self.cap as nat);
                }
                if room.member_count() > 0 {
                    self.rooms.insert(i, room);
                    proof {
                        let post = self@;
                        assert(post =~= pre.update(
                            i as int,
                            RoomView { name: pre[i as int].name, members: ms },
                        ));
                        assert(post == broadcast_model(pre, name@, from, msg@, self.cap as nat));
                        lemma_wf_after_member_shrink(pre, post, i as int, self.next_id);
                    }
                } else {
                    proof {
                        let post = self@;
                        assert(post =~= pre.remove(i as int));
                        assert(ms.len() == 0);
                        assert(post == broadcast_model(pre, name@, from, msg@, self.cap as nat));
                        lemma_wf_after_room_remove(pre, i as int, self.next_id);
                    }
                }
                evicted
            }
        }
    }

    /// Hands the session's currently queued messages, oldest first, to its
    /// send loop, leaving the queue empty. An absent room or session yields
    /// no messages.
    pub fn take_outbound(&mut self, name: &str, sid: u64) -> (msgs: Vec<Message>)
        requires
            old(self).wf(),
        ensures
            final(self).wf(),
            final(self).counter() == old(self).counter(),
            final(self).capacity() == old(self).capacity(),
            final(self)@ == drain_model(old(self)@, name@, sid),
            msg_views(msgs@) == queue_of(old(self)@, name@, sid),
    {
        let ghost pre = self@;
        match self.find_room(name) {
            None => {
                let r: Vec<Message> = Vec::new();
                assert(msg_views(r@) =~= Seq::<MessageView>::empty());
                r
            }
            Some(i) => {
                proof {
                    lemma_room_index_of(pre, name@, i as int);
                    assert(distinct_ids(pre[i as int].members)) by {
                        assert forall|a: int, b: int|
                            0 <= a < b < pre[i as int].members.len()
                            implies pre[i as int].members[a].id != pre[i as int].members[b].id by {
                            assert(sessions_unique(pre));
                        }
                    }
                }
                let mut room = self.rooms.remove(i);
                let drained = room.drain_member(sid);
                self.rooms.insert(i, room);
                match drained {
                    None => {
                        proof {
                            let post = self@;
                            assert(post =~= pre.update(i as int, pre[i as int]));
                            assert(post =~= pre);
                        }
                        let r: Vec<Message> = Vec::new();
                        assert(msg_views(r@) =~= Seq::<MessageView>::empty());
                        r
                    }
                    Some(msgs) => {
                        proof {
                            let post = self@;
                            let j = member_index(pre[i as int].members, sid);
                            let ms = pre[i as int].members.update(
                                j,
                                SessionView { id: sid, queue: Seq::<MessageView>::empty() },
                            );
                            assert(post =~= pre.update(
                                i as int,
                                RoomView { name: pre[i as int].name, members: ms },
                            ));
                            assert(post == drain_model(pre, name@, sid));
                            lemma_wf_after_queue_update(pre, post, i as int, j, self.next_id);
                        }
                        msgs
                    }
                }
            }
        }
    }

    /// The number of rooms currently alive.
    pub fn room_count(&self) -> (n: usize)
        ensures
            n == self@.len(),
    {
        self.rooms.len()
    }

    /// The number of members of the named room; zero when the room is
    /// absent.
    pub fn member_count(&self, name: &str) -> (n: usize)
        requires
            self.wf(),
        ensures
            has_room(self@, name@) ==> n == self@[room_index(self@, name@)].members.len(),
            !has_room(self@, name@) ==> n == 0,
    {
        match self.find_room(name) {
            None => 0,
            Some(i) => {
                proof {
                    lemma_room_index_of(self@, name@, i as int);
                }
                let r = &self.rooms[i];
                r.members.len()
            }
        }
    }
}

/// Removing one member keeps ids distinct and introduces no id.
pub proof fn lemma_member_remove_ids(members: Seq<SessionView>, j: int)
    requires
        distinct_ids(members),
        0 <= j < members.len(),
    ensures
        distinct_ids(members.remove(j)),
        forall|l: int| 0 <= l < members.remove(j).len()
            ==> has_member(members, #[trigger] members.remove(j)[l].id),
{
    let ms = members.remove(j);
    assert forall|a: int, b: int| 0 <= a < b < ms.len() implies ms[a].id != ms[b].id by {
        let a0 = if a < j { a } else { a + 1 };
        let b0 = if b < j { b } else { b + 1 };
        assert(ms[a] == members[a0] && ms[b] == members[b0]);
    }
    assert forall|l: int| 0 <= l < ms.len() implies has_member(members, ms[l].id) by {
        let l0 = if l < j { l } else { l + 1 };
        assert(ms[l] == members[l0]);
    }
}

/// Shrinking one room's membership (same name, ids drawn from the old
/// membership, still distinct, still non-empty) preserves well-formedness.
pub proof fn lemma_wf_after_member_shrink(pre: Seq<RoomView>, post: Seq<RoomView>, i: int, bound: u64)
    requires
        rooms_wf(pre),
        0 <= i < pre.len(),
        post == pre.update(i, post[i]),
        post.len() == pre.len(),
        post[i].name == pre[i].name,
        post[i].members.len() > 0,
        distinct_ids(post[i].members),
        forall|l: int| 0 <= l < post[i].members.len()
            ==> has_member(pre[i].members, #[trigger] post[i].members[l].id),
    ensures
        rooms_wf(post),
        ids_bounded(pre, bound) ==> ids_bounded(post, bound),
{
    assert forall|a: int, b: int| 0 <= a < b < post.len()
        implies post[a].name != post[b].name by {
        assert(pre[a].name != pre[b].name);
    }
    assert forall|a: int| 0 <= a < post.len() implies post[a].members.len() > 0 by {}
    assert forall|a: int, b: int, k: int, l: int|
        0 <= a < post.len() && 0 <= b < post.len()
        && 0 <= k < post[a].members.len() && 0 <= l < post[b].members.len()
        && (a != b || k != l)
        implies post[a].members[k].id != post[b].members[l].id by {
        if a == i && b == i {
            assert(distinct_ids(post[i].members));
            if k < l {
            } else {
                assert(l < k);
            }
        } else if a == i {
            assert(has_member(pre[i].members, post[a].members[k].id));
            let w = choose|x: int|
                0 <= x < pre[i].members.len() && pre[i].members[x].id == post[a].members[k].id;
            assert(pre[i].members[w].id != pre[b].members[l].id);
            assert(post[b].members[l] == pre[b].members[l]);
        } else if b == i {
            assert(has_member(pre[i].members, post[b].members[l].id));
            let w = choose|x: int|
                0 <= x < pre[i].members.len() && pre[i].members[x].id == post[b].members[l].id;
            assert(pre[i].members[w].id != pre[a].members[k].id);
            assert(post[a].members[k] == pre[a].members[k]);
        } else {
            assert(post[a].members[k] == pre[a].members[k]);
            assert(post[b].members[l] == pre[b].members[l]);
        }
    }
    if ids_bounded(pre, bound) {
        assert forall|a: int, k: int|
            0 <= a < post.len() && 0 <= k < post[a].members.len()
            implies post[a].members[k].id < bound by {
            if a == i {
                assert(has_member(pre[i].members, post[a].members[k].id));
                let w = choose|x: int|
                    0 <= x < pre[i].members.len() && pre[i].members[x].id == post[a].members[k].id;
                assert(pre[i].members[w].id < bound);
            } else {
                assert(post[a].members[k] == pre[a].members[k]);
            }
        }
    }
}

/// Removing one whole room preserves well-formedness.
pub proof fn lemma_wf_after_room_remove(pre: Seq<RoomView>, i: int, bound: u64)
    requires
        rooms_wf(pre),
        0 <= i < pre.len(),
    ensures
        rooms_wf(pre.remove(i)),
        ids_bounded(pre, bound) ==> ids_bounded(pre.remove(i), bound),
{
    let post = pre.remove(i);
    assert forall|a: int, b: int| 0 <= a < b < post.len()
        implies post[a].name != post[b].name by {
        let a0 = if a < i { a } else { a + 1 };
        let b0 = if b < i { b } else { b + 1 };
        assert(post[a] == pre[a0] && post[b] == pre[b0]);
    }
    assert forall|a: int| 0 <= a < post.len() implies post[a].members.len() > 0 by {
        let a0 = if a < i { a } else { a + 1 };
        assert(post[a] == pre[a0]);
    }
    assert forall|a: int, b: int, k: int, l: int|
        0 <= a < post.len() && 0 <= b < post.len()
        && 0 <= k < post[a].members.len() && 0 <= l < post[b].members.len()
        && (a != b || k != l)
        implies post[a].members[k].id != post[b].members[l].id by {
        let a0 = if a < i { a } else { a + 1 };
        let b0 = if b < i { b } else { b + 1 };
        assert(post[a] == pre[a0] && post[b] == pre[b0]);
    }
    if ids_bounded(pre, bound) {
        assert forall|a: int, k: int|
            0 <= a < post.len() && 0 <= k < post[a].members.len()
            implies post[a].members[k].id < bound by {
            let a0 = if a < i { a } else { a + 1 };
            assert(post[a] == pre[a0]);
        }
    }
}

/// Rewriting queues without touching any id or the membership shape
/// preserves well-formedness.
pub proof fn lemma_wf_after_queue_update(pre: Seq<RoomView>, post: Seq<RoomView>, i: int, j: int, bound: u64)
    requires
        rooms_wf(pre),
        ids_bounded(pre, bound),
        0 <= i < pre.len(),
        post == pre.update(i, post[i]),
        post.len() == pre.len(),
        post[i].name == pre[i].name,
        post[i].members.len() == pre[i].members.len(),
        forall|k: int| 0 <= k < pre[i].members.len()
            ==> #[trigger] post[i].members[k].id == pre[i].members[k].id,
    ensures
        rooms_wf(post),
        ids_bounded(post, bound),
{
    assert forall|a: int, b: int| 0 <= a < b < post.len()
        implies post[a].name != post[b].name by {
        assert(pre[a].name != pre[b].name);
    }
    assert forall|a: int| 0 <= a < post.len() implies post[a].members.len() > 0 by {}
    assert forall|a: int, b: int, k: int, l: int|
        0 <= a < post.len() && 0 <= b < post.len()
        && 0 <= k < post[a].members.len() && 0 <= l < post[b].members.len()
        && (a != b || k != l)
        implies post[a].members[k].id != post[b].members[l].id by {
        assert(post[a].members[k].id == pre[a].members[k].id);
        assert(post[b].members[l].id == pre[b].members[l].id);
        assert(pre[a].members[k].id != pre[b].members[l].id);
    }
    assert forall|a: int, k: int|
        0 <= a < post.len() && 0 <= k < post[a].members.len()
        implies post[a].members[k].id < bound by {
        assert(post[a].members[k].id == pre[a].members[k].id);
    }
}

/// When names are distinct, any position holding the name is the room index.
pub proof fn lemma_room_index_of(rooms: Seq<RoomView>, name: Seq<char>, i: int)
    requires
        distinct_names(rooms),
        0 <= i < rooms.len(),
        rooms[i].name == name,
    ensures
        has_room(rooms, name),
        room_index(rooms, name) == i,
{
    assert(has_room(rooms, name));
    let k = room_index(rooms, name);
    assert(0 <= k < rooms.len() && rooms[k].name == name);
    if k != i {
        assert(rooms[k].name != rooms[i].name || rooms[i].name != rooms[k].name);
    }
}

/// When ids are distinct, any position holding the id is the member index.
pub proof fn lemma_member_index_of(members: Seq<SessionView>, sid: u64, j: int)
    requires
        distinct_ids(members),
        0 <= j < members.len(),
        members[j].id == sid,
    ensures
        has_member(members, sid),
        member_index(members, sid) == j,
{
    assert(has_member(members, sid));
    let k = member_index(members, sid);
    assert(0 <= k < members.len() && members[k].id == sid);
}

} // verus!
