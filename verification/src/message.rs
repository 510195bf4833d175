//! The opaque update payload that the relay fans out.

use vstd::prelude::*;

verus! {

/// An opaque update payload together with the session that produced it.
/// The relay never interprets the payload.
pub struct Message {
    /// Identifier of the originating session.
    pub from: u64,
    /// Opaque payload bytes.
    pub payload: Vec<u8>,
}

/// Mathematical image of a `Message`.
pub ghost struct MessageView {
    pub from: u64,
    pub payload: Seq<u8>,
}

impl View for Message {
    type V = MessageView;

    open spec fn view(&self) -> MessageView {
        MessageView { from: self.from, payload: self.payload@ }
    }
}

impl Message {
    /// Builds a message from its parts.
    pub fn new(from: u64, payload: Vec<u8>) -> (r: Message)
        ensures
            r@ == (MessageView { from: from, payload: payload@ }),
    {
        Message { from, payload }
    }

    /// Produces an identical copy of the message.
    pub fn duplicate(&self) -> (r: Message)
        ensures
            r@ == self@,
    {
        let mut p: Vec<u8> = Vec::new();
        p.extend_from_slice(self.payload.as_slice());
        assert(p@ =~= self.payload@);
        Message { from: self.from, payload: p }
    }
}

} // verus!
