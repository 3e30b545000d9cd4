//! Why the orderings of the operations are enough.
//!
//! Machines and compilers reorder accesses, so here nothing is said of when an access takes
//! place. What a reader finds was left by some operation of the slot's writer, or stood there
//! before; and which operations these can be is restricted by no more than what acquire and
//! release promise, and by every location being coherent. The bytes of a copy are taken as
//! relaxed accesses, one by one. There is one writer; its operations are numbered in the
//! order in which it makes them, nine to a write.
use vstd::prelude::*;

use crate::byte_order;
use crate::header;
use crate::memory;
use crate::memory::{AccessOrder, OpView, ReplyView};
use crate::region;
use crate::region::RegionView;
use crate::seqlock;
use crate::seqlock::Written;
use crate::slate::{ReadResultView, ReadStepView, ReadView};

verus! {

/// The writer's operation number `p`, of all its writes to slot `index`.
#[verifier::opaque]
pub open spec fn op_at(region: RegionView, index: u32, history: Seq<Written>, p: int) -> OpView {
    let w = p / 9;
    seqlock::write_of(region, index, history[w]).ops(
        seqlock::sequence_after(w as nat) as u64,
        history[w].timestamp_nanos,
    )[p % 9]
}

/// Whether an operation leaves something at offset `at`.
pub open spec fn leaves(op: OpView, at: int) -> bool {
    match op {
        OpView::Store { .. } => memory::touched(op).0 <= at < memory::touched(op).1,
        OpView::Increment { .. } => memory::touched(op).0 <= at < memory::touched(op).1,
        OpView::CopyIn { .. } => memory::touched(op).0 <= at < memory::touched(op).1,
        _ => false,
    }
}

/// One operation of a reader: the read as it stood, the reply, and where the reply came
/// from. A load has one source, a copy one for each byte: the number of the writer's
/// operation that left it, or -1 for what stood there before.
pub struct Look {
    pub read: ReadView,
    pub reply: ReplyView,
    pub sources: Seq<int>,
}

impl Look {
    /// The offset that source `i` belongs to.
    pub open spec fn location(self, i: int) -> int {
        memory::touched(self.read.op()).0 + i
    }
}

/// Whether a reply is what its sources left. A slot's sequence was zero before.
pub open spec fn explained(
    region: RegionView,
    index: u32,
    history: Seq<Written>,
    look: Look,
) -> bool {
    &&& memory::answers(look.read.op(), look.reply)
    &&& forall|i: int|
        0 <= i < look.sources.len() ==> -1 <= #[trigger] look.sources[i] < 9 * history.len()
    &&& match (look.read.op(), look.reply) {
        (OpView::Load { offset, .. }, ReplyView::Value(v)) => {
            &&& look.sources.len() == 1
            &&& look.sources[0] == -1 ==> v == 0
            &&& look.sources[0] >= 0 ==> {
                &&& op_at(region, index, history, look.sources[0]) matches OpView::Store {
                    offset: o,
                    value,
                    ..
                }
                &&& o == offset
                &&& value == v
            }
        },
        (OpView::CopyOut { offset, len }, ReplyView::Bytes(b)) => {
            &&& look.sources.len() == len
            &&& forall|i: int|
                0 <= i < len && #[trigger] look.sources[i] >= 0 ==> {
                    let op = op_at(region, index, history, look.sources[i]);
                    &&& leaves(op, offset + i)
                    &&& op matches OpView::CopyIn { offset: o, bytes } ==> b[i] == bytes[offset
                        + i - o]
                }
        },
        _ => look.sources.len() == 0,
    }
}

/// Whether an ordering releases.
pub open spec fn releases(ordering: AccessOrder) -> bool {
    ordering is Release || ordering is AcqRel
}

/// Whether an ordering acquires.
pub open spec fn acquires(ordering: AccessOrder) -> bool {
    ordering is Acquire || ordering is AcqRel
}

/// Whether operation `p` of the writer is released by its operation `x`: `x` is a releasing
/// store after it, or there is a releasing fence between the two.
pub open spec fn released(
    region: RegionView,
    index: u32,
    history: Seq<Written>,
    p: int,
    x: int,
) -> bool {
    ||| {
        &&& p <= x
        &&& op_at(region, index, history, x) matches OpView::Store { ordering, .. }
        &&& releases(ordering)
    }
    ||| exists|s: int| p <= s < x && #[trigger] is_fence(op_at(region, index, history, s))
}

/// Whether an operation is a releasing fence.
pub open spec fn is_fence(op: OpView) -> bool {
    op matches OpView::Fence { ordering } && releases(ordering)
}

/// Whether what look `y` found is acquired by look `r`: `y` is an acquiring load before it,
/// or there is an acquiring fence between the two.
pub open spec fn acquired(looks: Seq<Look>, y: int, r: int) -> bool {
    ||| {
        &&& y < r
        &&& looks[y].read.op() matches OpView::Load { ordering, .. }
        &&& acquires(ordering)
    }
    ||| exists|f: int|
        y < f < r && ((#[trigger] looks[f]).read.op() matches OpView::Fence { ordering }
            && acquires(ordering))
}

/// Whether operation `p` of the writer happened before look `r`: something that an earlier
/// look found has released the one and is acquired by the other.
#[verifier::opaque]
pub open spec fn happened_before(
    region: RegionView,
    index: u32,
    history: Seq<Written>,
    looks: Seq<Look>,
    p: int,
    r: int,
) -> bool {
    exists|y: int, i: int|
        0 <= y < looks.len() && 0 <= i < looks[y].sources.len() && #[trigger] looks[y].sources[i]
            >= 0 && released(region, index, history, p, looks[y].sources[i]) && acquired(
            looks,
            y,
            r,
        )
}

/// Nothing is found that had been replaced: what happened before a look, at a location that
/// it looks at, is not later than what it found there.
pub open spec fn finds_nothing_replaced(
    region: RegionView,
    index: u32,
    history: Seq<Written>,
    looks: Seq<Look>,
    p: int,
    r: int,
    i: int,
) -> bool {
    leaves(op_at(region, index, history, p), looks[r].location(i)) && happened_before(
        region,
        index,
        history,
        looks,
        p,
        r,
    ) ==> p <= looks[r].sources[i]
}

/// A location is not seen going back: of two looks at it, the later one finds the same or
/// something later.
pub open spec fn sees_no_way_back(looks: Seq<Look>, y: int, i: int, r: int, j: int) -> bool {
    looks[y].location(i) == looks[r].location(j) ==> looks[y].sources[i] <= looks[r].sources[j]
}

/// Whether `looks` are what a reader of slot `index` can find, in the order in which it
/// makes them, where the slot's writer makes the writes of `history`.
#[verifier::opaque]
pub open spec fn is_reader(
    region: RegionView,
    index: u32,
    history: Seq<Written>,
    looks: Seq<Look>,
) -> bool {
    &&& region.wf()
    &&& index < region.slot_count
    &&& forall|w: int|
        0 <= w < history.len() ==> (#[trigger] history[w]).bytes.len() <= region.slot_size_bytes
    &&& forall|r: int|
        0 <= r < looks.len() ==> {
            let look = #[trigger] looks[r];
            &&& look.read.wf()
            &&& look.read.region == region
            &&& look.read.index == index
            &&& explained(region, index, history, look)
        }
    &&& forall|p: int, r: int, i: int|
        0 <= p < 9 * history.len() && 0 <= r < looks.len() && 0 <= i < looks[r].sources.len()
            ==> #[trigger] finds_nothing_replaced(region, index, history, looks, p, r, i)
    &&& forall|y: int, i: int, r: int, j: int|
        0 <= y < r < looks.len() && 0 <= i < looks[y].sources.len() && 0 <= j
            < looks[r].sources.len() ==> #[trigger] sees_no_way_back(looks, y, i, r, j)
}

/// Whether the looks from number `first` to number `last` are one whole read, to `result`.
pub open spec fn is_whole_read(
    looks: Seq<Look>,
    first: int,
    last: int,
    result: ReadResultView,
) -> bool {
    &&& 0 <= first <= last < looks.len()
    &&& looks[first].read.phase is Sequence
    &&& forall|k: int|
        first <= k < last ==> #[trigger] looks[k].read.next(looks[k].reply) == ReadStepView::Next(
            looks[k + 1].read,
        )
    &&& looks[last].read.next(looks[last].reply) == ReadStepView::Finished(result)
}

/// What the nine operations of write number `w` are.
proof fn lemma_ops(region: RegionView, index: u32, history: Seq<Written>, w: int, k: int)
    requires
        0 <= w < history.len(),
        0 <= k < 9,
    ensures
        op_at(region, index, history, 9 * w + k) == seqlock::write_of(
            region,
            index,
            history[w],
        ).ops(seqlock::sequence_after(w as nat) as u64, history[w].timestamp_nanos)[k],
{
    reveal(op_at);
    assert((9 * w + k) / 9 == w);
    assert((9 * w + k) % 9 == k);
}

/// What holds of every look.
proof fn lemma_look(
    region: RegionView,
    index: u32,
    history: Seq<Written>,
    looks: Seq<Look>,
    r: int,
)
    requires
        is_reader(region, index, history, looks),
        0 <= r < looks.len(),
    ensures
        region.wf(),
        index < region.slot_count,
        looks[r].read.wf(),
        looks[r].read.region == region,
        looks[r].read.index == index,
        explained(region, index, history, looks[r]),
{
    reveal(is_reader);
}

/// Every payload fits its slot.
proof fn lemma_payloads_fit(
    region: RegionView,
    index: u32,
    history: Seq<Written>,
    looks: Seq<Look>,
    w: int,
)
    requires
        is_reader(region, index, history, looks),
        0 <= w < history.len(),
    ensures
        history[w].bytes.len() <= region.slot_size_bytes,
{
    reveal(is_reader);
}

/// Looks at one location do not go back.
proof fn lemma_no_way_back(
    region: RegionView,
    index: u32,
    history: Seq<Written>,
    looks: Seq<Look>,
    y: int,
    i: int,
    r: int,
    j: int,
)
    requires
        is_reader(region, index, history, looks),
        0 <= y < r < looks.len(),
        0 <= i < looks[y].sources.len(),
        0 <= j < looks[r].sources.len(),
        looks[y].location(i) == looks[r].location(j),
    ensures
        looks[y].sources[i] <= looks[r].sources[j],
{
    reveal(is_reader);
    assert(sees_no_way_back(looks, y, i, r, j));
}

/// What source `i` of look `y` has released and look `r` acquires is not later than what
/// that look finds at the same location.
proof fn lemma_happened_before(
    region: RegionView,
    index: u32,
    history: Seq<Written>,
    looks: Seq<Look>,
    p: int,
    y: int,
    i: int,
    r: int,
    j: int,
)
    requires
        is_reader(region, index, history, looks),
        0 <= p < 9 * history.len(),
        0 <= y < looks.len(),
        0 <= i < looks[y].sources.len(),
        looks[y].sources[i] >= 0,
        released(region, index, history, p, looks[y].sources[i]),
        acquired(looks, y, r),
        0 <= r < looks.len(),
        0 <= j < looks[r].sources.len(),
        leaves(op_at(region, index, history, p), looks[r].location(j)),
    ensures
        p <= looks[r].sources[j],
{
    reveal(is_reader);
    reveal(happened_before);
    assert(finds_nothing_replaced(region, index, history, looks, p, r, j));
}

/// A read that gives a slot comes to its end through the five looks before its last.
proof fn lemma_attempt(
    region: RegionView,
    index: u32,
    history: Seq<Written>,
    looks: Seq<Look>,
    first: int,
    last: int,
    result: ReadResultView,
)
    requires
        is_reader(region, index, history, looks),
        is_whole_read(looks, first, last, result),
        result is Slot,
    ensures
        last - 5 >= first,
        looks[last - 5].read.phase is Sequence,
        looks[last - 5].reply == ReplyView::Value(result->sequence),
        result->sequence != 0,
        result->sequence % 2 == 0,
        looks[last - 4].read.phase is Length,
        looks[last - 4].reply is Bytes,
        looks[last - 3].read.phase is Timestamp,
        looks[last - 3].read.phase->Timestamp_length == byte_order::int_value(
            region.order,
            looks[last - 4].reply->Bytes_0,
        ) as u32,
        looks[last - 3].reply is Bytes,
        looks[last - 2].read.phase is Payload,
        looks[last - 2].read.phase->Payload_len == if looks[last - 3].read.phase->Timestamp_length
            <= region.slot_size_bytes {
            looks[last - 3].read.phase->Timestamp_length as usize
        } else {
            region.slot_size_bytes as usize
        },
        looks[last - 2].reply == ReplyView::Bytes(result->bytes),
        result->timestamp_nanos == byte_order::int_value(
            region.order,
            looks[last - 3].reply->Bytes_0,
        ) as u64,
        looks[last - 1].read.phase is Fence,
        looks[last].read.phase is Recheck,
        looks[last].reply == ReplyView::Value(result->sequence),
{
    reveal(is_reader);
    let g5 = looks[last];
    assert(g5.read.phase is Recheck);
    let g4 = looks[last - 1];
    assert(g4.read.next(g4.reply) == ReadStepView::Next(looks[last - 1 + 1].read));
    let g3 = looks[last - 2];
    assert(g3.read.next(g3.reply) == ReadStepView::Next(looks[last - 2 + 1].read));
    let g2 = looks[last - 3];
    assert(g2.read.next(g2.reply) == ReadStepView::Next(looks[last - 3 + 1].read));
    let g1 = looks[last - 4];
    assert(g1.read.next(g1.reply) == ReadStepView::Next(looks[last - 4 + 1].read));
    let g0 = looks[last - 5];
    assert(g0.read.next(g0.reply) == ReadStepView::Next(looks[last - 5 + 1].read));
}

/// An even sequence other than zero was left by the publishing store of a write.
proof fn lemma_published(region: RegionView, index: u32, history: Seq<Written>, look: Look) -> (w:
    int)
    requires
        region.wf(),
        index < region.slot_count,
        look.read.wf(),
        look.read.region == region,
        look.read.index == index,
        look.read.phase is Sequence || look.read.phase is Recheck,
        explained(region, index, history, look),
        look.reply->Value_0 != 0,
        look.reply->Value_0 % 2 == 0,
    ensures
        0 <= w < history.len(),
        look.sources[0] == 9 * w + 6,
        look.reply->Value_0 == seqlock::sequence_after((w + 1) as nat),
{
    region::lemma_slot(region, index);
    let x = look.sources[0];
    let w = x / 9;
    seqlock::lemma_sequence(w as nat);
    lemma_ops(region, index, history, w, x % 9);
    assert(9 * w + x % 9 == x);
    w
}

/// Which operation left something in the slot behind its sequence: one of the copies of a
/// write, and by the location it is told which.
proof fn lemma_copies(
    region: RegionView,
    index: u32,
    history: Seq<Written>,
    s: int,
    location: int,
)
    requires
        region.wf(),
        index < region.slot_count,
        0 <= s < 9 * history.len(),
        leaves(op_at(region, index, history, s), location),
        region.slot(index) + 8 <= location,
        location < region.slot(index) + header::stride(region.slot_size_bytes),
    ensures
        s % 9 == if location >= region.slot(index) + 32 {
            2int
        } else if location < region.slot(index) + 12 {
            3int
        } else {
            4int
        },
{
    broadcast use byte_order::lemma_int_bytes_len;

    region::lemma_slot(region, index);
    lemma_ops(region, index, history, s / 9, s % 9);
    assert(s == 9 * (s / 9) + s % 9);
}

/// The release of the publishing store and the acquire of the first look at the sequence
/// rule out that a copy finds anything from before the write that was published.
proof fn lemma_nothing_earlier(
    region: RegionView,
    index: u32,
    history: Seq<Written>,
    looks: Seq<Look>,
    a: int,
    w: int,
    r: int,
    i: int,
    k: int,
)
    requires
        is_reader(region, index, history, looks),
        0 <= a < r < looks.len(),
        looks[a].read.phase is Sequence,
        0 <= w < history.len(),
        looks[a].sources[0] == 9 * w + 6,
        0 <= i < looks[r].sources.len(),
        2 <= k <= 4,
        leaves(op_at(region, index, history, 9 * w + k), looks[r].location(i)),
    ensures
        9 * w + k <= looks[r].sources[i],
{
    lemma_look(region, index, history, looks, a);
    lemma_ops(region, index, history, w, 6);
    lemma_happened_before(region, index, history, looks, 9 * w + k, a, 0, r, i);
}

/// The release fence of a write and the acquire fence of a read rule out that a copy finds
/// anything of a write whose mark the second look at the sequence does not find.
proof fn lemma_nothing_later(
    region: RegionView,
    index: u32,
    history: Seq<Written>,
    looks: Seq<Look>,
    r: int,
    i: int,
    last: int,
)
    requires
        is_reader(region, index, history, looks),
        0 <= r < last - 1,
        last < looks.len(),
        looks[last - 1].read.phase is Fence,
        looks[last].read.phase is Recheck,
        0 <= i < looks[r].sources.len(),
        0 <= looks[r].sources[i],
        looks[r].sources[i] % 9 >= 2,
    ensures
        9 * (looks[r].sources[i] / 9) <= looks[last].sources[0],
{
    lemma_look(region, index, history, looks, r);
    lemma_look(region, index, history, looks, last - 1);
    lemma_look(region, index, history, looks, last);
    region::lemma_slot(region, index);
    let s = looks[r].sources[i];
    let v = s / 9;
    lemma_ops(region, index, history, v, 0);
    lemma_ops(region, index, history, v, 1);
    assert(is_fence(op_at(region, index, history, 9 * v + 1)));
    assert(looks[last - 1].read.op() is Fence);
    assert(9 * v + 0 == 9 * v);
    lemma_happened_before(region, index, history, looks, 9 * v, r, i, last, 0);
}

/// What a copy finds of write number `w`, whose publishing store both looks at the sequence
/// found: at every location that the write has left something at with its operation `k`,
/// just that.
proof fn lemma_found(
    region: RegionView,
    index: u32,
    history: Seq<Written>,
    looks: Seq<Look>,
    last: int,
    w: int,
    r: int,
    i: int,
    k: int,
)
    requires
        is_reader(region, index, history, looks),
        5 <= last < looks.len(),
        looks[last - 5].read.phase is Sequence,
        looks[last - 1].read.phase is Fence,
        looks[last].read.phase is Recheck,
        0 <= w < history.len(),
        looks[last - 5].sources[0] == 9 * w + 6,
        looks[last].sources[0] == 9 * w + 6,
        last - 5 < r < last - 1,
        looks[r].read.op() is CopyOut,
        0 <= i < looks[r].sources.len(),
        2 <= k <= 4,
        leaves(op_at(region, index, history, 9 * w + k), looks[r].location(i)),
        region.slot(index) + 8 <= looks[r].location(i),
        looks[r].location(i) < region.slot(index) + header::stride(region.slot_size_bytes),
    ensures
        looks[r].sources[i] == 9 * w + k,
{
    lemma_look(region, index, history, looks, r);
    lemma_nothing_earlier(region, index, history, looks, last - 5, w, r, i, k);
    let s = looks[r].sources[i];
    lemma_copies(region, index, history, s, looks[r].location(i));
    lemma_copies(region, index, history, 9 * w + k, looks[r].location(i));
    lemma_nothing_later(region, index, history, looks, r, i, last);
    assert(s == 9 * (s / 9) + s % 9);
}

/// A reader never sees a torn payload, on machines that reorder accesses too. A read that
/// gives a slot gives the bytes and the timestamp of one write, whole; it is the write whose
/// publishing store the read found at both of its looks at the sequence.
///
/// The writer may not come round to the same sequence during the read, which takes
/// [`seqlock::round`] writes.
pub proof fn law_orderings_suffice(
    region: RegionView,
    index: u32,
    history: Seq<Written>,
    looks: Seq<Look>,
    first: int,
    last: int,
    result: ReadResultView,
) -> (w: int)
    requires
        is_reader(region, index, history, looks),
        is_whole_read(looks, first, last, result),
        looks[last].sources[0] < looks[first].sources[0] + 9 * seqlock::round(),
        result is Slot,
    ensures
        0 <= w < history.len(),
        looks[last].sources[0] == 9 * w + 6,
        result == (ReadResultView::Slot {
            bytes: history[w].bytes,
            sequence: seqlock::sequence_after((w + 1) as nat) as u64,
            timestamp_nanos: history[w].timestamp_nanos,
        }),
{
    broadcast use byte_order::lemma_int_bytes_len;

    lemma_attempt(region, index, history, looks, first, last, result);
    lemma_look(region, index, history, looks, first);
    lemma_look(region, index, history, looks, last - 5);
    lemma_look(region, index, history, looks, last - 4);
    lemma_look(region, index, history, looks, last - 3);
    lemma_look(region, index, history, looks, last - 2);
    lemma_look(region, index, history, looks, last);
    region::lemma_slot(region, index);
    let g0 = looks[last - 5];
    let g1 = looks[last - 4];
    let g2 = looks[last - 3];
    let g3 = looks[last - 2];
    let g5 = looks[last];

    // Both looks at the sequence found the same store.
    let w = lemma_published(region, index, history, g0);
    let u = lemma_published(region, index, history, g5);
    lemma_no_way_back(region, index, history, looks, last - 5, 0, last, 0);
    if first < last - 5 {
        lemma_no_way_back(region, index, history, looks, first, 0, last - 5, 0);
    }
    seqlock::lemma_sequence_tells((w + 1) as nat, (u + 1) as nat);
    assert(w == u);

    // So every byte that was copied is this write's.
    let what = history[w];
    lemma_payloads_fit(region, index, history, looks, w);
    let b1 = g1.reply->Bytes_0;
    let b2 = g2.reply->Bytes_0;
    let b3 = g3.reply->Bytes_0;
    lemma_ops(region, index, history, w, 2);
    lemma_ops(region, index, history, w, 3);
    lemma_ops(region, index, history, w, 4);
    byte_order::lemma_int_counts();
    let length = byte_order::int_bytes(region.order, what.bytes.len(), 4);
    assert forall|i: int| 0 <= i < 4 implies b1[i] == length[i] by {
        lemma_found(region, index, history, looks, last, w, last - 4, i, 3);
        assert(g1.sources[i] >= 0);
    }
    assert(b1 =~= length);
    byte_order::law_number_survives(region.order, what.bytes.len(), 4);
    let stamp = byte_order::int_bytes(region.order, what.timestamp_nanos as nat, 8);
    assert forall|i: int| 0 <= i < 8 implies b2[i] == stamp[i] by {
        lemma_found(region, index, history, looks, last, w, last - 3, i, 4);
        assert(g2.sources[i] >= 0);
    }
    assert(b2 =~= stamp);
    byte_order::law_number_survives(region.order, what.timestamp_nanos as nat, 8);
    assert forall|i: int| 0 <= i < what.bytes.len() implies b3[i] == what.bytes[i] by {
        lemma_found(region, index, history, looks, last, w, last - 2, i, 2);
        assert(g3.sources[i] >= 0);
    }
    assert(b3 =~= what.bytes);
    w
}

/// A reader does not go back, on machines that reorder accesses too: of two reads that it
/// makes one after the other, the second gives the same write as the first or a later one.
pub proof fn law_reader_never_goes_back(
    region: RegionView,
    index: u32,
    history: Seq<Written>,
    looks: Seq<Look>,
    first: int,
    last: int,
    result: ReadResultView,
    next_first: int,
    next_last: int,
    next_result: ReadResultView,
) -> (r: (int, int))
    requires
        is_reader(region, index, history, looks),
        is_whole_read(looks, first, last, result),
        is_whole_read(looks, next_first, next_last, next_result),
        last < next_first,
        looks[last].sources[0] < looks[first].sources[0] + 9 * seqlock::round(),
        looks[next_last].sources[0] < looks[next_first].sources[0] + 9 * seqlock::round(),
        result is Slot,
        next_result is Slot,
    ensures
        0 <= r.0 <= r.1 < history.len(),
        result == (ReadResultView::Slot {
            bytes: history[r.0].bytes,
            sequence: seqlock::sequence_after((r.0 + 1) as nat) as u64,
            timestamp_nanos: history[r.0].timestamp_nanos,
        }),
        next_result == (ReadResultView::Slot {
            bytes: history[r.1].bytes,
            sequence: seqlock::sequence_after((r.1 + 1) as nat) as u64,
            timestamp_nanos: history[r.1].timestamp_nanos,
        }),
{
    let w = law_orderings_suffice(region, index, history, looks, first, last, result);
    let u = law_orderings_suffice(
        region,
        index,
        history,
        looks,
        next_first,
        next_last,
        next_result,
    );
    lemma_attempt(region, index, history, looks, first, last, result);
    lemma_attempt(region, index, history, looks, next_first, next_last, next_result);
    lemma_look(region, index, history, looks, last);
    lemma_look(region, index, history, looks, next_last);
    lemma_no_way_back(region, index, history, looks, last, 0, next_last, 0);
    (w, u)
}

/// Whoever learns of a write by the region's count or by its time, and acquires it, has the
/// write behind it: both are released, and both come behind the store that publishes the
/// write.
pub proof fn law_counters_release_their_write(
    region: RegionView,
    index: u32,
    history: Seq<Written>,
    w: int,
)
    requires
        0 <= w < history.len(),
    ensures
        op_at(region, index, history, 9 * w + 6) matches OpView::Store { offset, ordering, .. }
            && offset == region.slot(index) as usize && releases(ordering),
        op_at(region, index, history, 9 * w + 7) matches OpView::Increment { offset, ordering }
            && offset == 40 && releases(ordering) && acquires(ordering),
        op_at(region, index, history, 9 * w + 8) matches OpView::Store {
            offset,
            value,
            ordering,
        } && offset == 48 && value == history[w].timestamp_nanos && releases(ordering),
{
    lemma_ops(region, index, history, w, 6);
    lemma_ops(region, index, history, w, 7);
    lemma_ops(region, index, history, w, 8);
}

} // verus!
