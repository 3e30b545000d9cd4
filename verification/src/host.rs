//! What the caller's system is asked to do, and what it replies.
//!
//! Segments, names and the clock belong to the system. The library decides which operation
//! comes next; the caller performs it and hands the reply back.
use vstd::prelude::*;

use crate::memory;
use crate::memory::{MemoryOp, MemoryReply, OpView, ReplyView};

verus! {

/// What the caller's system is asked to do.
#[derive(Debug)]
pub enum HostOp {
    /// Create a shared-memory segment, zeroed and mapped; fail if the name exists.
    Create { name: String, size: usize },
    /// Map an existing segment.
    Open { name: String },
    /// Remove a segment's name. Mappings of it stay valid.
    Unlink { name: String },
    /// Read the wall clock.
    ReadClock,
    /// Operate on the mapped bytes.
    Memory(MemoryOp),
}

/// Why the system refused.
#[derive(Copy, Clone, Debug, PartialEq, Eq, Structural)]
pub enum Refusal {
    /// A link of that name exists.
    LinkExists,
    /// A segment of that name exists.
    MappingIdExists,
    /// No segment of that name exists.
    NotFound,
    /// Anything else.
    Other,
}

/// What performing a [`HostOp`] gave.
#[derive(Debug)]
pub enum HostReply {
    /// The operation has no result.
    Done,
    /// A segment of `len` bytes is mapped.
    Mapped { len: usize },
    /// The system refused, for a reason and in its own words.
    Refused { reason: Refusal, message: String },
    /// Microseconds since the UNIX epoch; none where the clock stands before it.
    Clock { micros: Option<u128> },
    /// The reply of an operation on the mapped bytes.
    Memory(MemoryReply),
}

/// [`HostOp`] with its texts as character sequences.
pub enum HostOpView {
    Create { name: Seq<char>, size: usize },
    Open { name: Seq<char> },
    Unlink { name: Seq<char> },
    ReadClock,
    Memory(OpView),
}

/// [`HostReply`] with its texts as character sequences.
pub enum HostReplyView {
    Done,
    Mapped { len: usize },
    Refused { reason: Refusal, message: Seq<char> },
    Clock { micros: Option<u128> },
    Memory(ReplyView),
}

impl View for HostOp {
    type V = HostOpView;

    open spec fn view(&self) -> HostOpView {
        match *self {
            HostOp::Create { name, size } => HostOpView::Create { name: name@, size },
            HostOp::Open { name } => HostOpView::Open { name: name@ },
            HostOp::Unlink { name } => HostOpView::Unlink { name: name@ },
            HostOp::ReadClock => HostOpView::ReadClock,
            HostOp::Memory(op) => HostOpView::Memory(op@),
        }
    }
}

impl View for HostReply {
    type V = HostReplyView;

    open spec fn view(&self) -> HostReplyView {
        match *self {
            HostReply::Done => HostReplyView::Done,
            HostReply::Mapped { len } => HostReplyView::Mapped { len },
            HostReply::Refused { reason, message } => HostReplyView::Refused {
                reason,
                message: message@,
            },
            HostReply::Clock { micros } => HostReplyView::Clock { micros },
            HostReply::Memory(reply) => HostReplyView::Memory(reply@),
        }
    }
}

/// Whether a reply is of a kind that the operation can give.
pub open spec fn answers(op: HostOpView, reply: HostReplyView) -> bool {
    match op {
        HostOpView::Create { .. } => reply is Mapped || reply is Refused,
        HostOpView::Open { .. } => reply is Mapped || reply is Refused,
        HostOpView::Unlink { .. } => reply is Done || reply is Refused,
        HostOpView::ReadClock => reply is Clock,
        HostOpView::Memory(op) => reply matches HostReplyView::Memory(r) && memory::answers(op, r),
    }
}

impl HostReply {
    /// Whether this is a reply that `op` can give.
    pub fn answers(&self, op: &HostOp) -> (r: bool)
        ensures
            r == answers(op@, self@),
    {
        match (op, self) {
            (HostOp::Create { .. }, HostReply::Mapped { .. }) => true,
            (HostOp::Create { .. }, HostReply::Refused { .. }) => true,
            (HostOp::Open { .. }, HostReply::Mapped { .. }) => true,
            (HostOp::Open { .. }, HostReply::Refused { .. }) => true,
            (HostOp::Unlink { .. }, HostReply::Done) => true,
            (HostOp::Unlink { .. }, HostReply::Refused { .. }) => true,
            (HostOp::ReadClock, HostReply::Clock { .. }) => true,
            (HostOp::Memory(op), HostReply::Memory(reply)) => reply.answers(op),
            (_, _) => false,
        }
    }
}

/// A segment that is asked for is mapped or refused, a name that is to go is gone or refused,
/// the clock is read, and an operation on the mapped bytes is answered as such: nothing else
/// answers.
pub proof fn law_only_fitting_replies_answer(op: HostOpView, reply: HostReplyView)
    ensures
        reply is Refused ==> (answers(op, reply) <==> op is Create || op is Open || op is Unlink),
        reply is Mapped ==> (answers(op, reply) <==> op is Create || op is Open),
        reply is Done ==> (answers(op, reply) <==> op is Unlink),
        reply is Clock ==> (answers(op, reply) <==> op is ReadClock),
        reply matches HostReplyView::Memory(r) ==> (answers(op, reply) <==> (op is Memory
            && memory::answers(op->Memory_0, r))),
{
}

} // verus!
