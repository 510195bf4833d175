//! A room: a named set of sessions. A message sent by one member is fanned
//! out to the outbound queue of every other member; a member whose queue is
//! already full is evicted instead of stalling the broadcaster.

use vstd::prelude::*;
use crate::message::{Message, MessageView};
use crate::session::{Session, SessionView, session_views, distinct_ids, has_member, member_index};

verus! {

/// A named broadcast domain.
pub struct Room {
    /// The room identifier; exact byte match, case-sensitive.
    pub name: String,
    /// Current members, in join order.
    pub members: Vec<Session>,
}

/// Mathematical image of a `Room`.
pub ghost struct RoomView {
    pub name: Seq<char>,
    pub members: Seq<SessionView>,
}

impl View for Room {
    type V = RoomView;

    open spec fn view(&self) -> RoomView {
        RoomView { name: self.name@, members: session_views(self.members@) }
    }
}

/// The members after fanning `msg` out from `from` with queue bound `cap`:
/// the sender is untouched, a member with queue space gets `msg` appended,
/// and a member whose queue is already full is dropped (evicted).
pub open spec fn deliver(members: Seq<SessionView>, from: u64, msg: MessageView, cap: nat) -> Seq<SessionView>
    decreases members.len(),
{
    if members.len() == 0 {
        Seq::<SessionView>::empty()
    } else {
        let head = members[0];
        let rest = deliver(members.subrange(1, members.len() as int), from, msg, cap);
        if head.id == from {
            seq![head] + rest
        } else if head.queue.len() < cap {
            seq![SessionView { id: head.id, queue: head.queue.push(msg) }] + rest
        } else {
            rest
        }
    }
}

/// The ids evicted by that same fan-out: the members, other than the sender,
/// whose queues were already full, in membership order.
pub open spec fn evicted_ids(members: Seq<SessionView>, from: u64, cap: nat) -> Seq<u64>
    decreases members.len(),
{
    if members.len() == 0 {
        Seq::<u64>::empty()
    } else {
        let head = members[0];
        let rest = evicted_ids(members.subrange(1, members.len() as int), from, cap);
        if head.id != from && head.queue.len() >= cap {
            seq![head.id] + rest
        } else {
            rest
        }
    }
}

impl Room {
    /// A fresh room holding exactly its first member.
    pub fn new(name: String, first: Session) -> (r: Room)
        ensures
            r@.name == name@,
            r@.members == seq![first@],
    {
        let r = Room { name, members: vec![first] };
        assert(r@.members =~= seq![r.members@[0]@]);
        r
    }

    /// The number of current members.
    pub fn member_count(&self) -> (n: usize)
        ensures
            n == self@.members.len(),
    {
        self.members.len()
    }

    /// The position of the member with the given id, if present.
    pub fn find_member(&self, sid: u64) -> (r: Option<usize>)
        ensures
            match r {
                Some(i) => i < self@.members.len() && self@.members[i as int].id == sid
                    && (forall|k: int| 0 <= k < i ==> self@.members[k].id != sid),
                None => !has_member(self@.members, sid),
            },
    {
        let mut i: usize = 0;
        while i < self.members.len()
            invariant
                i <= self.members.len(),
                forall|k: int| 0 <= k < i ==> self@.members[k].id != sid,
            decreases self.members.len() - i,
        {
            if self.members[i].id == sid {
                return Some(i);
            }
            i += 1;
        }
        None
    }

    /// Adds a member; called by the registry under its serialization
    /// discipline.
    pub fn add_member(&mut self, s: Session)
        ensures
            final(self)@.name == old(self)@.name,
            final(self)@.members == old(self)@.members.push(s@),
    {
        let ghost pre = session_views(self.members@);
        let ghost sv = s@;
        self.members.push(s);
        assert(session_views(self.members@) =~= pre.push(sv));
    }

    /// Removes the member with the given id if present; reports whether a
    /// member was removed. Removing an absent id is a no-op.
    pub fn remove_member(&mut self, sid: u64) -> (removed: bool)
        requires
            distinct_ids(old(self)@.members),
        ensures
            final(self)@.name == old(self)@.name,
            removed == has_member(old(self)@.members, sid),
            removed ==> final(self)@.members
                == old(self)@.members.remove(member_index(old(self)@.members, sid)),
            !removed ==> final(self)@.members == old(self)@.members,
    {
        let ghost pre = session_views(self.members@);
        match self.find_member(sid) {
            None => false,
            Some(i) => {
                assert(has_member(pre, sid));
                proof {
                    let k = member_index(pre, sid);
                    assert(0 <= k < pre.len() && pre[k].id == sid);
                    if k != i as int {
                        assert(pre[i as int].id == sid);
                        assert(false);
                    }
                }
                self.members.remove(i);
                assert(session_views(self.members@) =~= pre.remove(i as int));
                true
            }
        }
    }

    /// Hands the present outbound queue of the member with the given id,
    /// oldest first, to that member's send loop, leaving the queue empty.
    pub fn drain_member(&mut self, sid: u64) -> (r: Option<Vec<Message>>)
        requires
            distinct_ids(old(self)@.members),
        ensures
            final(self)@.name == old(self)@.name,
            match r {
                Some(msgs) => {
                    &&& has_member(old(self)@.members, sid)
                    &&& crate::session::msg_views(msgs@)
                        == old(self)@.members[member_index(old(self)@.members, sid)].queue
                    &&& final(self)@.members == old(self)@.members.update(
                        member_index(old(self)@.members, sid),
                        SessionView { id: sid, queue: Seq::<MessageView>::empty() },
                    )
                },
                None => !has_member(old(self)@.members, sid) && final(self)@.members
                    == old(self)@.members,
            },
    {
        let ghost pre = session_views(self.members@);
        match self.find_member(sid) {
            None => None,
            Some(i) => {
                assert(has_member(pre, sid));
                proof {
                    let k = member_index(pre, sid);
                    assert(0 <= k < pre.len() && pre[k].id == sid);
                    if k != i as int {
                        assert(pre[i as int].id == sid);
                        assert(false);
                    }
                }
                let mut s = self.members.remove(i);
                let msgs = s.take_all();
                self.members.insert(i, s);
                assert(session_views(self.members@) =~= pre.update(
                    i as int,
                    SessionView { id: sid, queue: Seq::<MessageView>::empty() },
                ));
                Some(msgs)
            }
        }
    }

    /// Fans `msg` out from `from`: every other member either receives `msg`
    /// at the tail of its outbound queue or, if that queue is already full,
    /// is evicted. Returns the evicted ids. The sender never waits on any
    /// recipient and never receives its own message.
    pub fn broadcast(&mut self, from: u64, msg: &Message, cap: usize) -> (evicted: Vec<u64>)
        ensures
            final(self)@.name == old(self)@.name,
            final(self)@.members == deliver(old(self)@.members, from, msg@, cap as nat),
            evicted@ == evicted_ids(old(self)@.members, from, cap as nat),
    {
        let ghost orig = session_views(self.members@);
        let ghost orig_name = self.name@;
        let mut pending: Vec<Session> = Vec::new();
        core::mem::swap(&mut pending, &mut self.members);
        let mut evicted: Vec<u64> = Vec::new();
        assert(session_views(self.members@) =~= Seq::<SessionView>::empty());
        assert(Seq::<SessionView>::empty() + deliver(session_views(pending@), from, msg@, cap as nat)
            =~= deliver(orig, from, msg@, cap as nat));
        assert(Seq::<u64>::empty() + evicted_ids(session_views(pending@), from, cap as nat)
            =~= evicted_ids(orig, from, cap as nat));
        while pending.len() > 0
            invariant
                self.name@ == orig_name,
                deliver(orig, from, msg@, cap as nat) == session_views(self.members@)
                    + deliver(session_views(pending@), from, msg@, cap as nat),
                evicted_ids(orig, from, cap as nat) == evicted@
                    + evicted_ids(session_views(pending@), from, cap as nat),
            decreases pending.len(),
        {
            let ghost pv = session_views(pending@);
            let ghost cur = session_views(self.members@);
            let ghost ev = evicted@;
            let mut m = pending.remove(0);
            let ghost rest = session_views(pending@);
            assert(rest =~= pv.subrange(1, pv.len() as int));
            assert(m@ == pv[0]);
            if m.id == from {
                self.members.push(m);
                assert(session_views(self.members@) =~= cur.push(pv[0]));
                assert(cur.push(pv[0]) + deliver(rest, from, msg@, cap as nat)
                    =~= cur + (seq![pv[0]] + deliver(rest, from, msg@, cap as nat)));
            } else {
                let dup = msg.duplicate();
                let ok = m.enqueue(dup, cap);
                if ok {
                    let ghost mv = m@;
                    assert(mv == (SessionView { id: pv[0].id, queue: pv[0].queue.push(msg@) }));
                    self.members.push(m);
                    assert(session_views(self.members@) =~= cur.push(mv));
                    assert(cur.push(mv) + deliver(rest, from, msg@, cap as nat)
                        =~= cur + (seq![mv] + deliver(rest, from, msg@, cap as nat)));
                } else {
                    evicted.push(m.id);
                    assert(evicted@ =~= ev.push(pv[0].id));
                    assert(ev.push(pv[0].id) + evicted_ids(rest, from, cap as nat)
                        =~= ev + (seq![pv[0].id] + evicted_ids(rest, from, cap as nat)));
                }
            }
        }
        assert(session_views(pending@) =~= Seq::<SessionView>::empty());
        assert(deliver(Seq::<SessionView>::empty(), from, msg@, cap as nat)
            =~= Seq::<SessionView>::empty());
        assert(evicted_ids(Seq::<SessionView>::empty(), from, cap as nat) =~= Seq::<u64>::empty());
        assert(session_views(self.members@)
            =~= session_views(self.members@) + Seq::<SessionView>::empty());
        assert(evicted@ =~= evicted@ + Seq::<u64>::empty());
        evicted
    }
}

} // verus!
