//! Operations on a mapped region, and what they do to its bytes.
//!
//! The library decides which operation comes next; whoever holds the mapping performs it
//! and hands the reply back.
use vstd::prelude::*;

use crate::byte_order;
use crate::byte_order::ByteOrder;

verus! {

/// Memory ordering of an atomic access or a fence.
#[derive(Copy, Clone, Debug, PartialEq, Eq, Structural)]
pub enum AccessOrder {
    Relaxed,
    Acquire,
    Release,
    AcqRel,
}

/// One operation on the bytes of a mapped region. Offsets count from the region's start.
#[derive(Debug)]
pub enum MemoryOp {
    /// Atomically load the 8-byte number at `offset`.
    Load { offset: usize, ordering: AccessOrder },
    /// Atomically store an 8-byte number at `offset`.
    Store { offset: usize, value: u64, ordering: AccessOrder },
    /// Atomically add one, wrapping, to the 8-byte number at `offset`.
    Increment { offset: usize, ordering: AccessOrder },
    /// Order the accesses around it.
    Fence { ordering: AccessOrder },
    /// Copy `bytes` into the region at `offset`, byte by byte in any order.
    CopyIn { offset: usize, bytes: Vec<u8> },
    /// Copy `len` bytes out of the region at `offset`, byte by byte in any order.
    CopyOut { offset: usize, len: usize },
}

/// What performing a [`MemoryOp`] gave.
#[derive(Debug)]
pub enum MemoryReply {
    /// The operation has no result.
    Done,
    /// What a load found.
    Value(u64),
    /// What was copied out.
    Bytes(Vec<u8>),
}

/// [`MemoryOp`] with its bytes as a sequence.
pub enum OpView {
    Load { offset: usize, ordering: AccessOrder },
    Store { offset: usize, value: u64, ordering: AccessOrder },
    Increment { offset: usize, ordering: AccessOrder },
    Fence { ordering: AccessOrder },
    CopyIn { offset: usize, bytes: Seq<u8> },
    CopyOut { offset: usize, len: usize },
}

/// [`MemoryReply`] with its bytes as a sequence.
pub enum ReplyView {
    Done,
    Value(u64),
    Bytes(Seq<u8>),
}

impl View for MemoryOp {
    type V = OpView;

    open spec fn view(&self) -> OpView {
        match *self {
            MemoryOp::Load { offset, ordering } => OpView::Load { offset, ordering },
            MemoryOp::Store { offset, value, ordering } => OpView::Store {
                offset,
                value,
                ordering,
            },
            MemoryOp::Increment { offset, ordering } => OpView::Increment { offset, ordering },
            MemoryOp::Fence { ordering } => OpView::Fence { ordering },
            MemoryOp::CopyIn { offset, bytes } => OpView::CopyIn { offset, bytes: bytes@ },
            MemoryOp::CopyOut { offset, len } => OpView::CopyOut { offset, len },
        }
    }
}

impl View for MemoryReply {
    type V = ReplyView;

    open spec fn view(&self) -> ReplyView {
        match *self {
            MemoryReply::Done => ReplyView::Done,
            MemoryReply::Value(v) => ReplyView::Value(v),
            MemoryReply::Bytes(b) => ReplyView::Bytes(b@),
        }
    }
}

/// Whether a reply is of the kind, and for a copy of the length, that the operation asks
/// for.
pub open spec fn answers(op: OpView, reply: ReplyView) -> bool {
    match op {
        OpView::Load { .. } => reply is Value,
        OpView::CopyOut { len, .. } => reply matches ReplyView::Bytes(b) && b.len() == len,
        _ => reply is Done,
    }
}

impl MemoryReply {
    /// Whether this is a reply that `op` can give.
    pub fn answers(&self, op: &MemoryOp) -> (r: bool)
        ensures
            r == answers(op@, self@),
    {
        match (op, self) {
            (MemoryOp::Load { .. }, MemoryReply::Value(_)) => true,
            (MemoryOp::Load { .. }, _) => false,
            (MemoryOp::CopyOut { len, .. }, MemoryReply::Bytes(b)) => b.len() == *len,
            (MemoryOp::CopyOut { .. }, _) => false,
            (_, MemoryReply::Done) => true,
            (_, _) => false,
        }
    }
}

/// The bytes that an operation may touch, as a half-open range of offsets.
pub open spec fn touched(op: OpView) -> (int, int) {
    match op {
        OpView::Load { offset, .. } => (offset as int, offset + 8),
        OpView::Store { offset, .. } => (offset as int, offset + 8),
        OpView::Increment { offset, .. } => (offset as int, offset + 8),
        OpView::Fence { .. } => (0, 0),
        OpView::CopyIn { offset, bytes } => (offset as int, offset + bytes.len()),
        OpView::CopyOut { offset, len } => (offset as int, offset + len),
    }
}

/// Whether an operation can be performed on a region of `len` bytes that starts at an
/// 8-aligned address: it stays inside, and atomic accesses are 8-aligned.
pub open spec fn performable(op: OpView, len: nat) -> bool {
    &&& 0 <= touched(op).0 <= touched(op).1 <= len
    &&& match op {
        OpView::Load { offset, .. } => offset % 8 == 0,
        OpView::Store { offset, .. } => offset % 8 == 0,
        OpView::Increment { offset, .. } => offset % 8 == 0,
        _ => true,
    }
}

/// `mem` with `bytes` in place of what stood at `at`.
pub open spec fn patch(mem: Seq<u8>, at: int, bytes: Seq<u8>) -> Seq<u8> {
    Seq::new(
        mem.len(),
        |i: int|
            if at <= i < at + bytes.len() {
                bytes[i - at]
            } else {
                mem[i]
            },
    )
}

/// The 8-byte number at `at`.
pub open spec fn word(order: ByteOrder, mem: Seq<u8>, at: int) -> nat {
    byte_order::int_value(order, mem.subrange(at, at + 8))
}

/// The successor of a 64-bit counter.
pub open spec fn successor(n: nat) -> nat {
    (n + 1) % 0x1_0000_0000_0000_0000
}

/// The region's bytes after an operation.
pub open spec fn effect(order: ByteOrder, mem: Seq<u8>, op: OpView) -> Seq<u8> {
    match op {
        OpView::Store { offset, value, .. } => patch(
            mem,
            offset as int,
            byte_order::int_bytes(order, value as nat, 8),
        ),
        OpView::Increment { offset, .. } => patch(
            mem,
            offset as int,
            byte_order::int_bytes(order, successor(word(order, mem, offset as int)), 8),
        ),
        OpView::CopyIn { offset, bytes } => patch(mem, offset as int, bytes),
        _ => mem,
    }
}

/// What an operation replies on the region's bytes, performed all at once.
pub open spec fn reply_on(order: ByteOrder, mem: Seq<u8>, op: OpView) -> ReplyView {
    match op {
        OpView::Load { offset, .. } => ReplyView::Value(word(order, mem, offset as int) as u64),
        OpView::CopyOut { offset, len } => ReplyView::Bytes(
            mem.subrange(offset as int, offset + len),
        ),
        _ => ReplyView::Done,
    }
}

/// The region's bytes after the first `n` of several operations, one after another.
pub open spec fn after(order: ByteOrder, mem: Seq<u8>, ops: Seq<OpView>, n: nat) -> Seq<u8>
    decreases n,
{
    if n == 0 {
        mem
    } else {
        effect(order, after(order, mem, ops, (n - 1) as nat), ops[n - 1])
    }
}

/// An operation changes nothing outside the bytes that it touches.
pub proof fn law_effect_is_local(order: ByteOrder, mem: Seq<u8>, op: OpView, i: int)
    requires
        0 <= i < mem.len(),
        !(touched(op).0 <= i < touched(op).1),
    ensures
        effect(order, mem, op).len() == mem.len(),
        effect(order, mem, op)[i] == mem[i],
{
    broadcast use byte_order::lemma_int_bytes_len;

}

/// A number that was stored is the number that is loaded.
pub proof fn law_load_after_store(
    order: ByteOrder,
    mem: Seq<u8>,
    offset: usize,
    value: u64,
    stored: AccessOrder,
    loaded: AccessOrder,
)
    requires
        offset + 8 <= mem.len(),
    ensures
        reply_on(
            order,
            effect(order, mem, OpView::Store { offset, value, ordering: stored }),
            OpView::Load { offset, ordering: loaded },
        ) == ReplyView::Value(value),
{
    broadcast use byte_order::lemma_int_bytes_len;

    let bytes = byte_order::int_bytes(order, value as nat, 8);
    let after = patch(mem, offset as int, bytes);
    assert(after.subrange(offset as int, offset + 8) =~= bytes);
    byte_order::lemma_int_counts();
    byte_order::law_number_survives(order, value as nat, 8);
}

/// Bytes that were copied in are the bytes that are copied out.
pub proof fn law_copy_out_after_copy_in(
    order: ByteOrder,
    mem: Seq<u8>,
    offset: usize,
    bytes: Seq<u8>,
)
    requires
        offset + bytes.len() <= mem.len(),
        bytes.len() <= usize::MAX,
    ensures
        reply_on(
            order,
            effect(order, mem, OpView::CopyIn { offset, bytes }),
            OpView::CopyOut { offset, len: bytes.len() as usize },
        ) == ReplyView::Bytes(bytes),
{
    assert(patch(mem, offset as int, bytes).subrange(offset as int, offset + bytes.len())
        =~= bytes);
}

/// What an operation can be performed on: its bytes lie inside, and an atomic access is to
/// an 8-aligned number.
pub proof fn law_performable_is_in_bounds(op: OpView, len: nat)
    requires
        performable(op, len),
    ensures
        op matches OpView::Load { offset, .. } ==> offset % 8 == 0 && offset + 8 <= len,
        op matches OpView::Store { offset, .. } ==> offset % 8 == 0 && offset + 8 <= len,
        op matches OpView::Increment { offset, .. } ==> offset % 8 == 0 && offset + 8 <= len,
        op matches OpView::CopyIn { offset, bytes } ==> offset + bytes.len() <= len,
        op matches OpView::CopyOut { offset, len: n } ==> offset + n <= len,
{
}

/// A reply depends on nothing but the bytes that the operation touches.
pub proof fn law_reply_is_local(order: ByteOrder, a: Seq<u8>, b: Seq<u8>, op: OpView)
    requires
        a.len() == b.len(),
        performable(op, a.len()),
        forall|i: int| touched(op).0 <= i < touched(op).1 ==> #[trigger] a[i] == b[i],
    ensures
        reply_on(order, a, op) == reply_on(order, b, op),
{
    match op {
        OpView::Load { offset, .. } => {
            assert(a.subrange(offset as int, offset + 8) =~= b.subrange(
                offset as int,
                offset + 8,
            ));
        },
        OpView::CopyOut { offset, len } => {
            assert(a.subrange(offset as int, offset + len) =~= b.subrange(
                offset as int,
                offset + len,
            ));
        },
        _ => {},
    }
}

/// A reply answers an operation exactly where some bytes give it: whatever the operation
/// finds is an answer, and nothing else is.
pub proof fn law_answers_are_what_is_found(op: OpView, reply: ReplyView, len: nat)
    requires
        performable(op, len),
    ensures
        answers(op, reply) <==> exists|mem: Seq<u8>|
            mem.len() == len && #[trigger] reply_on(ByteOrder::Little, mem, op) == reply,
{
    broadcast use byte_order::lemma_int_bytes_len;

    let zeros = Seq::new(len, |i: int| 0u8);
    assert forall|mem: Seq<u8>| mem.len() == len implies answers(
        op,
        #[trigger] reply_on(ByteOrder::Little, mem, op),
    ) by {}
    if answers(op, reply) {
        match (op, reply) {
            (OpView::Load { offset, ordering }, ReplyView::Value(v)) => {
                law_load_after_store(ByteOrder::Little, zeros, offset, v, ordering, ordering);
                let mem = effect(
                    ByteOrder::Little,
                    zeros,
                    OpView::Store { offset, value: v, ordering },
                );
                assert(mem.len() == len);
                assert(reply_on(ByteOrder::Little, mem, op) == reply);
            },
            (OpView::CopyOut { offset, .. }, ReplyView::Bytes(b)) => {
                law_copy_out_after_copy_in(ByteOrder::Little, zeros, offset, b);
                let mem = effect(ByteOrder::Little, zeros, OpView::CopyIn { offset, bytes: b });
                assert(mem.len() == len);
                assert(reply_on(ByteOrder::Little, mem, op) == reply);
            },
            _ => {
                assert(reply_on(ByteOrder::Little, zeros, op) == reply);
            },
        }
    }
}

/// An increment adds one to the number it is made on, and takes the greatest to zero.
pub proof fn law_increment_adds_one(
    order: ByteOrder,
    mem: Seq<u8>,
    offset: usize,
    ordering: AccessOrder,
)
    requires
        offset + 8 <= mem.len(),
    ensures
        ({
            let before = word(order, mem, offset as int);
            let new = effect(order, mem, OpView::Increment { offset, ordering });
            &&& before < u64::MAX ==> word(order, new, offset as int) == before + 1
            &&& before == u64::MAX ==> word(order, new, offset as int) == 0
            &&& before <= u64::MAX
        }),
{
    broadcast use byte_order::lemma_int_bytes_len;

    let at = offset as int;
    let before = word(order, mem, at);
    byte_order::lemma_value_fits(order, mem.subrange(at, at + 8));
    byte_order::lemma_int_counts();
    byte_order::law_number_survives(order, successor(before), 8);
    let new = effect(order, mem, OpView::Increment { offset, ordering });
    assert(new.subrange(at, at + 8) =~= byte_order::int_bytes(order, successor(before), 8));
}

/// Bytes that were copied in stand where they were copied to, one by one.
pub proof fn law_copied_bytes_stand(
    order: ByteOrder,
    mem: Seq<u8>,
    offset: usize,
    bytes: Seq<u8>,
    i: int,
)
    requires
        offset + bytes.len() <= mem.len(),
        0 <= i < bytes.len(),
    ensures
        effect(order, mem, OpView::CopyIn { offset, bytes })[offset + i] == bytes[i],
{
}

} // verus!
