//! A session: one connected client's routing identity, owning the bounded
//! outbound queue used for fan-out toward that client.

use vstd::prelude::*;
use crate::message::{Message, MessageView};

verus! {

/// A member of a room: a stable identity plus the outbound queue that the
/// room fills and the client's send loop drains.
pub struct Session {
    /// Process-unique identifier, assigned at join time.
    pub id: u64,
    /// Outbound messages awaiting delivery, oldest first.
    pub queue: Vec<Message>,
}

/// Mathematical image of a `Session`.
pub ghost struct SessionView {
    pub id: u64,
    pub queue: Seq<MessageView>,
}

/// The views of a sequence of messages.
pub open spec fn msg_views(s: Seq<Message>) -> Seq<MessageView> {
    s.map_values(|m: Message| m@)
}

/// The views of a sequence of sessions.
pub open spec fn session_views(s: Seq<Session>) -> Seq<SessionView> {
    s.map_values(|x: Session| x@)
}

/// Distinct identifiers: no two sessions in the sequence share an id.
pub open spec fn distinct_ids(members: Seq<SessionView>) -> bool {
    forall|i: int, j: int| 0 <= i < j < members.len() ==> members[i].id != members[j].id
}

/// Some session in the sequence carries the given id.
pub open spec fn has_member(members: Seq<SessionView>, sid: u64) -> bool {
    exists|i: int| 0 <= i < members.len() && members[i].id == sid
}

/// The position of the session carrying the given id (unique when ids are
/// distinct).
pub open spec fn member_index(members: Seq<SessionView>, sid: u64) -> int {
    choose|i: int| 0 <= i < members.len() && members[i].id == sid
}

impl View for Session {
    type V = SessionView;

    open spec fn view(&self) -> SessionView {
        SessionView { id: self.id, queue: msg_views(self.queue@) }
    }
}

impl Session {
    /// A fresh session with an empty outbound queue.
    pub fn new(id: u64) -> (r: Session)
        ensures
            r@ == (SessionView { id: id, queue: Seq::<MessageView>::empty() }),
    {
        let r = Session { id, queue: Vec::new() };
        assert(r@.queue =~= Seq::<MessageView>::empty());
        r
    }

    /// Non-blocking enqueue onto the bounded outbound queue: the message is
    /// appended when there is room, and refused (`false`, queue full) when
    /// the queue already holds `cap` messages.
    pub fn enqueue(&mut self, msg: Message, cap: usize) -> (ok: bool)
        ensures
            final(self)@.id == old(self)@.id,
            ok <==> old(self)@.queue.len() < cap,
            ok ==> final(self)@.queue == old(self)@.queue.push(msg@),
            !ok ==> final(self)@.queue == old(self)@.queue,
    {
        if self.queue.len() < cap {
            let ghost pre = self.queue@;
            self.queue.push(msg);
            assert(msg_views(self.queue@) =~= msg_views(pre).push(self.queue@.last()@));
            true
        } else {
            false
        }
    }

    /// Hands the whole outbound queue, oldest first, to the send loop and
    /// leaves the queue empty.
    pub fn take_all(&mut self) -> (msgs: Vec<Message>)
        ensures
            final(self)@.id == old(self)@.id,
            final(self)@.queue == Seq::<MessageView>::empty(),
            msg_views(msgs@) == old(self)@.queue,
    {
        let mut msgs: Vec<Message> = Vec::new();
        core::mem::swap(&mut msgs, &mut self.queue);
        assert(msg_views(self.queue@) =~= Seq::<MessageView>::empty());
        msgs
    }
}

} // verus!
