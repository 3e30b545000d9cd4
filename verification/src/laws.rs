//! What holds of the table as a whole, with nobody else at work on the region.
//!
//! [`crate::seqlock`] says what holds while writers and readers are at work at once.
use vstd::prelude::*;

use crate::byte_order;
use crate::byte_order::ByteOrder;
use crate::error::ErrorView;
use crate::header;
use crate::header::{GlobalHeader, LAST_UPDATE_NS_OFFSET, READ_RETRIES, WRITER_SEQ_OFFSET};
use crate::host;
use crate::host::{HostOpView, HostReplyView};
use crate::memory;
use crate::memory::{OpView, ReplyView};
use crate::namespace;
use crate::region;
use crate::region::{OpenPhase, OpenStepView, OpenView, RegionView};
use crate::seqlock;
use crate::seqlock::{Moment, Writer, Written};
use crate::slate;
use crate::slate::{ReadPhaseView, ReadResultView, ReadStepView, ReadView, SlateConfig};

verus! {

/// How many steps a read has left, at most.
pub open spec fn steps_left(v: ReadView) -> nat {
    ((v.attempts - 1) * 6 + match v.phase {
        ReadPhaseView::Sequence => 6int,
        ReadPhaseView::Length { .. } => 5int,
        ReadPhaseView::Timestamp { .. } => 4int,
        ReadPhaseView::Payload { .. } => 3int,
        ReadPhaseView::Fence { .. } => 2int,
        ReadPhaseView::Recheck { .. } => 1int,
    }) as nat
}

/// Retry is bounded: whatever the replies are, every step takes a read nearer to its end,
/// and it has six steps for each of [`READ_RETRIES`] attempts.
pub proof fn law_reads_are_bounded(v: ReadView, reply: ReplyView)
    requires
        v.wf(),
        memory::answers(v.op(), reply),
    ensures
        steps_left(v) <= 6 * READ_RETRIES,
        v.next(reply) matches ReadStepView::Next(w) ==> w.wf() && steps_left(w) < steps_left(v),
{
}

/// An operation on a region that is long enough gets an answer.
pub proof fn lemma_read_answered(v: ReadView, mem: Seq<u8>)
    requires
        v.wf(),
        v.region.size() <= mem.len(),
    ensures
        memory::answers(v.op(), memory::reply_on(v.region.order, mem, v.op())),
{
    region::lemma_slot(v.region, v.index);
}

/// What a read gives on bytes that stand still.
pub open spec fn read_alone(v: ReadView, mem: Seq<u8>) -> ReadResultView
    decreases steps_left(v),
    when v.wf() && v.region.size() <= mem.len()
    via read_alone_decreases
{
    match v.next(memory::reply_on(v.region.order, mem, v.op())) {
        ReadStepView::Finished(result) => result,
        ReadStepView::Next(w) => read_alone(w, mem),
    }
}

#[via_fn]
proof fn read_alone_decreases(v: ReadView, mem: Seq<u8>) {
    lemma_read_answered(v, mem);
    law_reads_are_bounded(v, memory::reply_on(v.region.order, mem, v.op()));
}

/// A read at its start.
pub open spec fn read_of(region: RegionView, index: u32) -> ReadView {
    ReadView {
        region,
        index,
        attempts: READ_RETRIES as nat,
        phase: ReadPhaseView::Sequence,
    }
}

/// What slot `index` says of itself: nothing was written, a write is under way, or its
/// sequence, its timestamp, and as much of its payload as its length and capacity allow.
pub open spec fn content(region: RegionView, index: u32, mem: Seq<u8>) -> ReadResultView {
    let slot = region.slot(index) as int;
    let sequence = seqlock::sequence_of(region, index, mem);
    let length = byte_order::int_value(region.order, header::field(mem, slot + 8, 4));
    if sequence == 0 {
        ReadResultView::Empty
    } else if sequence % 2 == 1 {
        ReadResultView::Torn
    } else {
        ReadResultView::Slot {
            bytes: header::field(
                mem,
                region.payload(index) as int,
                if length <= region.slot_size_bytes {
                    length as int
                } else {
                    region.slot_size_bytes as int
                },
            ),
            sequence: sequence as u64,
            timestamp_nanos: byte_order::int_value(
                region.order,
                header::field(mem, slot + 16, 8),
            ) as u64,
        }
    }
}

/// A read of a slot that stands still gives what the slot says; a slot that was left odd by
/// a writer that died reads as torn.
pub proof fn law_read_gives_content(region: RegionView, index: u32, mem: Seq<u8>)
    requires
        region.wf(),
        index < region.slot_count,
        region.size() <= mem.len(),
    ensures
        read_alone(read_of(region, index), mem) == content(region, index, mem),
{
    reveal_with_fuel(read_alone, 7);
    region::lemma_slot(region, index);
    let slot = region.slot(index) as int;
    byte_order::lemma_value_fits(region.order, mem.subrange(slot, slot + 8));
    byte_order::lemma_value_fits_u32(region.order, header::field(mem, slot + 8, 4));
    byte_order::lemma_value_fits(region.order, header::field(mem, slot + 16, 8));
}

/// The region's bytes after a whole write, alone.
pub open spec fn written(region: RegionView, index: u32, mem: Seq<u8>, what: Written) -> Seq<
    u8,
> {
    let sequence = seqlock::sequence_of(region, index, mem) as u64;
    let ops = seqlock::write_of(region, index, what).ops(sequence, what.timestamp_nanos);
    memory::after(region.order, mem, ops, ops.len())
}

/// A write puts its bytes, their length and its timestamp into the slot and takes the
/// slot's sequence on to the next even number.
pub proof fn law_write_lands(region: RegionView, index: u32, mem: Seq<u8>, what: Written)
    requires
        seqlock::write_of(region, index, what).wf(),
        region.size() <= mem.len(),
    ensures
        written(region, index, mem, what).len() == mem.len(),
        seqlock::holds(region, index, written(region, index, mem, what), what),
        seqlock::sequence_of(region, index, written(region, index, mem, what))
            == slate::published_sequence(seqlock::sequence_of(region, index, mem) as u64),
{
    region::lemma_slot(region, index);
    let slot = region.slot(index) as int;
    byte_order::lemma_value_fits(region.order, mem.subrange(slot, slot + 8));
    let sequence = seqlock::sequence_of(region, index, mem) as u64;
    seqlock::lemma_progress(region, index, mem, what, sequence, 9);
}

/// What was written is what is read: after a write to a slot whose sequence was even, a
/// read gives exactly its bytes (nothing of an earlier, longer payload behind them), its
/// timestamp, and the next even sequence. It never finds the slot empty.
pub proof fn law_write_then_read(region: RegionView, index: u32, mem: Seq<u8>, what: Written)
    requires
        seqlock::write_of(region, index, what).wf(),
        region.size() <= mem.len(),
        seqlock::sequence_of(region, index, mem) % 2 == 0,
    ensures
        read_alone(read_of(region, index), written(region, index, mem, what)) == (
        ReadResultView::Slot {
            bytes: what.bytes,
            sequence: slate::published_sequence(
                seqlock::sequence_of(region, index, mem) as u64,
            ),
            timestamp_nanos: what.timestamp_nanos,
        }),
{
    let new = written(region, index, mem, what);
    region::lemma_slot(region, index);
    let slot = region.slot(index) as int;
    byte_order::lemma_value_fits(region.order, mem.subrange(slot, slot + 8));
    law_write_lands(region, index, mem, what);
    law_read_gives_content(region, index, new);
    byte_order::lemma_int_counts();
    byte_order::law_number_survives(region.order, what.bytes.len(), 4);
    byte_order::law_number_survives(region.order, what.timestamp_nanos as nat, 8);
}

/// There is no history: of two writes to a slot, only the second is read.
pub proof fn law_last_write_wins(
    region: RegionView,
    index: u32,
    mem: Seq<u8>,
    first: Written,
    second: Written,
)
    requires
        seqlock::write_of(region, index, first).wf(),
        seqlock::write_of(region, index, second).wf(),
        region.size() <= mem.len(),
        seqlock::sequence_of(region, index, mem) % 2 == 0,
    ensures
        read_alone(
            read_of(region, index),
            written(region, index, written(region, index, mem, first), second),
        ) == (ReadResultView::Slot {
            bytes: second.bytes,
            sequence: slate::published_sequence(
                slate::published_sequence(seqlock::sequence_of(region, index, mem) as u64),
            ),
            timestamp_nanos: second.timestamp_nanos,
        }),
{
    region::lemma_slot(region, index);
    let slot = region.slot(index) as int;
    byte_order::lemma_value_fits(region.order, mem.subrange(slot, slot + 8));
    law_write_lands(region, index, mem, first);
    law_write_then_read(region, index, written(region, index, mem, first), second);
}

/// The bytes that a write may change: its slot, and the two counters of the header.
pub open spec fn write_reaches(region: RegionView, index: u32, i: int) -> bool {
    ||| region.slot(index) <= i < region.slot(index) + header::stride(region.slot_size_bytes)
    ||| WRITER_SEQ_OFFSET <= i < LAST_UPDATE_NS_OFFSET + 8
}

proof fn lemma_write_is_local(
    region: RegionView,
    index: u32,
    mem: Seq<u8>,
    what: Written,
    sequence: u64,
    done: nat,
    i: int,
)
    requires
        seqlock::write_of(region, index, what).wf(),
        region.size() <= mem.len(),
        done <= 9,
        0 <= i < mem.len(),
        !write_reaches(region, index, i),
    ensures
        ({
            let ops = seqlock::write_of(region, index, what).ops(sequence, what.timestamp_nanos);
            let new = memory::after(region.order, mem, ops, done);
            new.len() == mem.len() && new[i] == mem[i]
        }),
    decreases done,
{
    broadcast use byte_order::lemma_int_bytes_len;

    if done > 0 {
        region::lemma_slot(region, index);
        lemma_write_is_local(region, index, mem, what, sequence, (done - 1) as nat, i);
        let ops = seqlock::write_of(region, index, what).ops(sequence, what.timestamp_nanos);
        let before = memory::after(region.order, mem, ops, (done - 1) as nat);
        memory::law_effect_is_local(region.order, before, ops[done - 1], i);
    }
}

/// A write changes nothing but its own slot and the two counters of the header.
pub proof fn law_write_is_local(
    region: RegionView,
    index: u32,
    mem: Seq<u8>,
    what: Written,
    i: int,
)
    requires
        seqlock::write_of(region, index, what).wf(),
        region.size() <= mem.len(),
        0 <= i < mem.len(),
        !write_reaches(region, index, i),
    ensures
        written(region, index, mem, what)[i] == mem[i],
{
    let sequence = seqlock::sequence_of(region, index, mem) as u64;
    lemma_write_is_local(region, index, mem, what, sequence, 9, i);
}

/// Every slot has its own writer: a write to one slot leaves every other slot, and what a
/// read of it gives, as they were.
pub proof fn law_slots_are_independent(
    region: RegionView,
    index: u32,
    other: u32,
    mem: Seq<u8>,
    what: Written,
)
    requires
        seqlock::write_of(region, index, what).wf(),
        region.size() <= mem.len(),
        other < region.slot_count,
        other != index,
    ensures
        seqlock::same_slot(region, other, mem, written(region, index, mem, what)),
        read_alone(read_of(region, other), written(region, index, mem, what)) == read_alone(
            read_of(region, other),
            mem,
        ),
{
    let new = written(region, index, mem, what);
    law_write_lands(region, index, mem, what);
    region::lemma_slot(region, index);
    region::lemma_slot(region, other);
    if index < other {
        header::law_slots_are_disjoint(index, other, region.slot_size_bytes);
    } else {
        header::law_slots_are_disjoint(other, index, region.slot_size_bytes);
    }
    let start = region.slot(other) as int;
    let end = start + header::stride(region.slot_size_bytes);
    assert forall|i: int| start <= i < end implies #[trigger] mem[i] == new[i] by {
        law_write_is_local(region, index, mem, what, i);
    }
    law_read_gives_content(region, other, mem);
    law_read_gives_content(region, other, new);
    assert(mem.subrange(start, start + 8) =~= new.subrange(start, start + 8));
    assert(header::field(mem, start + 8, 4) =~= header::field(new, start + 8, 4));
    assert(header::field(mem, start + 16, 8) =~= header::field(new, start + 16, 8));
    let length = byte_order::int_value(region.order, header::field(mem, start + 8, 4));
    let n = if length <= region.slot_size_bytes {
        length as int
    } else {
        region.slot_size_bytes as int
    };
    assert(header::field(mem, start + 32, n) =~= header::field(new, start + 32, n));
}

proof fn lemma_header_waits(
    region: RegionView,
    index: u32,
    mem: Seq<u8>,
    what: Written,
    sequence: u64,
    done: nat,
)
    requires
        seqlock::write_of(region, index, what).wf(),
        region.size() <= mem.len(),
        done <= 7,
    ensures
        ({
            let ops = seqlock::write_of(region, index, what).ops(sequence, what.timestamp_nanos);
            let new = memory::after(region.order, mem, ops, done);
            new.len() == mem.len() && new.take(128) == mem.take(128)
        }),
    decreases done,
{
    broadcast use byte_order::lemma_int_bytes_len;

    region::lemma_slot(region, index);
    if done > 0 {
        lemma_header_waits(region, index, mem, what, sequence, (done - 1) as nat);
        let ops = seqlock::write_of(region, index, what).ops(sequence, what.timestamp_nanos);
        let before = memory::after(region.order, mem, ops, (done - 1) as nat);
        let new = memory::after(region.order, mem, ops, done);
        assert forall|i: int| 0 <= i < 128 implies new[i] == before[i] by {
            memory::law_effect_is_local(region.order, before, ops[done - 1], i);
        }
        assert(new.take(128) =~= before.take(128));
    }
}

/// On success the counters advance: a write takes the region's count of writes on by one
/// (wrapping) and puts its timestamp into the header.
pub proof fn law_write_counts(region: RegionView, index: u32, mem: Seq<u8>, what: Written)
    requires
        seqlock::write_of(region, index, what).wf(),
        region.size() <= mem.len(),
    ensures
        ({
            let new = written(region, index, mem, what);
            &&& memory::word(region.order, new, WRITER_SEQ_OFFSET as int) == memory::successor(
                memory::word(region.order, mem, WRITER_SEQ_OFFSET as int),
            )
            &&& memory::word(region.order, new, LAST_UPDATE_NS_OFFSET as int)
                == what.timestamp_nanos
        }),
{
    broadcast use byte_order::lemma_int_bytes_len;

    region::lemma_slot(region, index);
    byte_order::lemma_int_counts();
    let order = region.order;
    let sequence = seqlock::sequence_of(region, index, mem) as u64;
    let ops = seqlock::write_of(region, index, what).ops(sequence, what.timestamp_nanos);
    lemma_header_waits(region, index, mem, what, sequence, 7);
    let m7 = memory::after(order, mem, ops, 7);
    let m8 = memory::after(order, mem, ops, 8);
    let m9 = memory::after(order, mem, ops, 9);
    assert(m7.subrange(40, 48) =~= m7.take(128).subrange(40, 48));
    assert(mem.subrange(40, 48) =~= mem.take(128).subrange(40, 48));
    let count = memory::successor(memory::word(order, m7, 40));
    byte_order::law_number_survives(order, count, 8);
    byte_order::law_number_survives(order, what.timestamp_nanos as nat, 8);
    assert(m8 == memory::effect(order, m7, ops[7]));
    assert(m9 == memory::effect(order, m8, ops[8]));
    assert(m8.subrange(40, 48) =~= byte_order::int_bytes(order, count, 8));
    assert(m9.subrange(40, 48) =~= m8.subrange(40, 48));
    assert(m9.subrange(48, 56) =~= byte_order::int_bytes(order, what.timestamp_nanos as nat, 8));
}

/// The region's bytes after several whole writes, one after another, each to a slot.
pub open spec fn written_all(
    region: RegionView,
    mem: Seq<u8>,
    writes: Seq<(u32, Written)>,
) -> Seq<u8>
    decreases writes.len(),
{
    if writes.len() == 0 {
        mem
    } else {
        let last = writes.last();
        written(region, last.0, written_all(region, mem, writes.drop_last()), last.1)
    }
}

/// The count is of all writes: after several writes, to whatever slots, the region's count of
/// writes has gone on by their number (wrapping at 2^64), and its time is that of the last.
pub proof fn law_writes_are_counted(
    region: RegionView,
    mem: Seq<u8>,
    writes: Seq<(u32, Written)>,
)
    requires
        region.size() <= mem.len(),
        forall|i: int|
            0 <= i < writes.len() ==> seqlock::write_of(
                region,
                (#[trigger] writes[i]).0,
                writes[i].1,
            ).wf(),
    ensures
        ({
            let new = written_all(region, mem, writes);
            &&& new.len() == mem.len()
            &&& memory::word(region.order, new, WRITER_SEQ_OFFSET as int) == (memory::word(
                region.order,
                mem,
                WRITER_SEQ_OFFSET as int,
            ) + writes.len()) % 0x1_0000_0000_0000_0000
            &&& memory::word(region.order, new, LAST_UPDATE_NS_OFFSET as int) == if writes.len()
                == 0 {
                memory::word(region.order, mem, LAST_UPDATE_NS_OFFSET as int)
            } else {
                writes.last().1.timestamp_nanos as nat
            }
        }),
    decreases writes.len(),
{
    if writes.len() == 0 {
        region::lemma_offsets(region);
        byte_order::lemma_value_fits(region.order, mem.subrange(40, 48));
    } else {
        let rest = writes.drop_last();
        assert forall|i: int| 0 <= i < rest.len() implies seqlock::write_of(
            region,
            (#[trigger] rest[i]).0,
            rest[i].1,
        ).wf() by {
            assert(rest[i] == writes[i]);
        }
        law_writes_are_counted(region, mem, rest);
        let before = written_all(region, mem, rest);
        let last = writes[writes.len() - 1];
        assert(seqlock::write_of(region, last.0, last.1).wf());
        law_write_lands(region, last.0, before, last.1);
        law_write_counts(region, last.0, before, last.1);
    }
}

/// The bytes of a segment right after its creator has stamped it: it was born zeroed.
pub open spec fn created(o: OpenView, epoch_micros: u64) -> Seq<u8> {
    memory::patch(
        Seq::new(o.size(), |i: int| 0u8),
        0,
        o.stamp(epoch_micros).image(o.order),
    )
}

/// Zeros spell zero.
pub proof fn lemma_zeros(order: ByteOrder, bytes: Seq<u8>)
    requires
        forall|i: int| 0 <= i < bytes.len() ==> bytes[i] == 0,
    ensures
        byte_order::int_value(order, bytes) == 0,
{
    lemma_little_zeros(bytes);
    lemma_little_zeros(bytes.reverse());
}

proof fn lemma_little_zeros(bytes: Seq<u8>)
    requires
        forall|i: int| 0 <= i < bytes.len() ==> bytes[i] == 0,
    ensures
        byte_order::little_value(bytes) == 0,
    decreases bytes.len(),
{
    if bytes.len() > 0 {
        lemma_little_zeros(bytes.drop_first());
    }
}

/// A table starts empty: right after its creation every slot reads as never written, and
/// the count and time of writes are zero.
pub proof fn law_table_starts_empty(o: OpenView, epoch_micros: u64, index: u32)
    requires
        o.wf(),
        !(o.phase is Attach),
        index < o.slot_count,
    ensures
        ({
            let region = o.region(true);
            let mem = created(o, epoch_micros);
            &&& region.size() == mem.len()
            &&& read_alone(read_of(region, index), mem) == ReadResultView::Empty
            &&& memory::word(region.order, mem, WRITER_SEQ_OFFSET as int) == 0
            &&& memory::word(region.order, mem, LAST_UPDATE_NS_OFFSET as int) == 0
        }),
{
    let region = o.region(true);
    let mem = created(o, epoch_micros);
    region::lemma_slot(region, index);
    header::lemma_fields(o.stamp(epoch_micros), o.order);
    let b = o.stamp(epoch_micros).image(o.order);
    let slot = region.slot(index) as int;
    lemma_zeros(o.order, mem.subrange(slot, slot + 8));
    law_read_gives_content(region, index, mem);
    assert(mem.subrange(40, 48) =~= header::field(b, 40, 8));
    assert(mem.subrange(48, 56) =~= header::field(b, 48, 8));
}

/// From creation on, the region's count is the number of writes (wrapping at 2^64).
pub proof fn law_count_is_of_all_writes(
    o: OpenView,
    epoch_micros: u64,
    writes: Seq<(u32, Written)>,
)
    requires
        o.wf(),
        !(o.phase is Attach),
        forall|i: int|
            0 <= i < writes.len() ==> seqlock::write_of(
                o.region(true),
                (#[trigger] writes[i]).0,
                writes[i].1,
            ).wf(),
    ensures
        memory::word(
            o.order,
            written_all(o.region(true), created(o, epoch_micros), writes),
            WRITER_SEQ_OFFSET as int,
        ) == writes.len() % 0x1_0000_0000_0000_0000,
{
    law_table_starts_empty(o, epoch_micros, 0);
    law_writes_are_counted(o.region(true), created(o, epoch_micros), writes);
}

/// A table that was just created is where [`seqlock`] starts from: no slot has ever been
/// written, and no writer is at work.
pub proof fn law_created_is_fresh(o: OpenView, epoch_micros: u64, index: u32)
    requires
        o.wf(),
        !(o.phase is Attach),
        index < o.slot_count,
    ensures
        seqlock::fresh(
            o.region(true),
            index,
            Moment { mem: created(o, epoch_micros), writer: Writer::Idle, past: seq![] },
        ),
{
    let region = o.region(true);
    let mem = created(o, epoch_micros);
    region::lemma_slot(region, index);
    header::lemma_fields(o.stamp(epoch_micros), o.order);
    let slot = region.slot(index) as int;
    lemma_zeros(o.order, mem.subrange(slot, slot + 8));
}

/// The parts of a global header that an attacher looks at.
pub open spec fn identity(mem: Seq<u8>) -> (Seq<u8>, Seq<u8>, Seq<u8>) {
    (header::field(mem, 0, 12), header::field(mem, 24, 16), header::field(mem, 56, 32))
}

/// An attacher is told by a header's identity alone.
proof fn lemma_identity(o: OpenView, a: Seq<u8>, b: Seq<u8>)
    requires
        a.len() >= GlobalHeader::SIZE,
        b.len() >= GlobalHeader::SIZE,
        identity(a) == identity(b),
    ensures
        o.header_error(a) == o.header_error(b),
{
    assert(header::field(a, 0, 8) =~= header::field(a, 0, 12).subrange(0, 8));
    assert(header::field(b, 0, 8) =~= header::field(b, 0, 12).subrange(0, 8));
    assert(header::field(a, 8, 4) =~= header::field(a, 0, 12).subrange(8, 12));
    assert(header::field(b, 8, 4) =~= header::field(b, 0, 12).subrange(8, 12));
    assert(header::field(a, 24, 4) =~= header::field(a, 24, 16).subrange(0, 4));
    assert(header::field(b, 24, 4) =~= header::field(b, 24, 16).subrange(0, 4));
    assert(header::field(a, 28, 4) =~= header::field(a, 24, 16).subrange(4, 8));
    assert(header::field(b, 28, 4) =~= header::field(b, 24, 16).subrange(4, 8));
    assert(header::field(a, 32, 8) =~= header::field(a, 24, 16).subrange(8, 16));
    assert(header::field(b, 32, 8) =~= header::field(b, 24, 16).subrange(8, 16));
}

/// An attacher is let in exactly where its geometry, its schema hash and its digest are the
/// creator's; a drifted geometry or schema hash is refused with both sides named.
pub proof fn law_attach_follows_creator(creator: OpenView, epoch_micros: u64, attacher: OpenView)
    requires
        creator.wf(),
        !(creator.phase is Attach),
        attacher.wf(),
        attacher.order == creator.order,
    ensures
        ({
            let bytes = created(creator, epoch_micros).take(128);
            let refusal = attacher.header_error(bytes);
            &&& refusal is None <==> {
                &&& attacher.slot_count == creator.slot_count
                &&& attacher.slot_size_bytes == creator.slot_size_bytes
                &&& attacher.schema_hash == creator.schema_hash
                &&& attacher.digest == creator.digest
            }
            &&& (attacher.slot_count != creator.slot_count || attacher.slot_size_bytes
                != creator.slot_size_bytes) ==> refusal == Some(
                ErrorView::GeometryMismatch {
                    expected_count: attacher.slot_count,
                    found_count: creator.slot_count,
                    expected_size: attacher.slot_size_bytes,
                    found_size: creator.slot_size_bytes,
                },
            )
            &&& (attacher.slot_count == creator.slot_count && attacher.slot_size_bytes
                == creator.slot_size_bytes && attacher.schema_hash != creator.schema_hash)
                ==> refusal == Some(
                ErrorView::SchemaHashMismatch {
                    expected: attacher.schema_hash,
                    found: creator.schema_hash,
                },
            )
        }),
{
    region::lemma_offsets(creator.region(true));
    header::lemma_fields(creator.stamp(epoch_micros), creator.order);
    let b = creator.stamp(epoch_micros).image(creator.order);
    assert(created(creator, epoch_micros).take(128) =~= b);
}

/// A write leaves a region's identity as it was.
pub proof fn law_write_keeps_identity(region: RegionView, index: u32, mem: Seq<u8>, what: Written)
    requires
        seqlock::write_of(region, index, what).wf(),
        region.size() <= mem.len(),
    ensures
        written(region, index, mem, what).len() == mem.len(),
        identity(written(region, index, mem, what).take(128)) == identity(mem.take(128)),
{
    let new = written(region, index, mem, what);
    region::lemma_slot(region, index);
    law_write_lands(region, index, mem, what);
    assert forall|i: int| 0 <= i < 128 && !(40 <= i < 56) implies new[i] == mem[i] by {
        law_write_is_local(region, index, mem, what, i);
    }
    let a = new.take(128);
    let b = mem.take(128);
    assert(header::field(a, 0, 12) =~= header::field(b, 0, 12));
    assert(header::field(a, 24, 16) =~= header::field(b, 24, 16));
    assert(header::field(a, 56, 32) =~= header::field(b, 56, 32));
}

/// Writes do not disturb attaching: however much has been written, and to whatever slots, a
/// region keeps its identity, and an attacher is told what it would have been told before.
pub proof fn law_writes_keep_identity(
    region: RegionView,
    mem: Seq<u8>,
    writes: Seq<(u32, Written)>,
    attacher: OpenView,
)
    requires
        region.size() <= mem.len(),
        forall|i: int|
            0 <= i < writes.len() ==> seqlock::write_of(
                region,
                (#[trigger] writes[i]).0,
                writes[i].1,
            ).wf(),
    ensures
        written_all(region, mem, writes).len() == mem.len(),
        identity(written_all(region, mem, writes).take(128)) == identity(mem.take(128)),
        attacher.header_error(written_all(region, mem, writes).take(128))
            == attacher.header_error(mem.take(128)),
    decreases writes.len(),
{
    region::lemma_offsets(region);
    if writes.len() > 0 {
        let rest = writes.drop_last();
        assert forall|i: int| 0 <= i < rest.len() implies seqlock::write_of(
            region,
            (#[trigger] rest[i]).0,
            rest[i].1,
        ).wf() by {
            assert(rest[i] == writes[i]);
        }
        law_writes_keep_identity(region, mem, rest, attacher);
        let before = written_all(region, mem, rest);
        let last = writes[writes.len() - 1];
        assert(seqlock::write_of(region, last.0, last.1).wf());
        law_write_keeps_identity(region, last.0, before, last.1);
        lemma_identity(
            attacher,
            written_all(region, mem, writes).take(128),
            before.take(128),
        );
    }
}

/// How many steps an opening has left, at most.
pub open spec fn opening_left(o: OpenView) -> nat {
    match o.phase {
        OpenPhase::Create { .. } => 5,
        OpenPhase::Remove => 4,
        OpenPhase::Recreate => 3,
        OpenPhase::Clock => 2,
        OpenPhase::Stamp { .. } => 1,
        OpenPhase::Attach => 2,
        OpenPhase::Verify => 1,
    }
}

/// An opening comes to an end: whatever the replies are, every step takes it nearer. On the
/// way, what it was asked for stays as it is.
pub proof fn law_openings_are_bounded(o: OpenView, reply: HostReplyView)
    requires
        o.wf(),
        host::answers(o.op(), reply),
    ensures
        o.next(reply) matches OpenStepView::Next(n) ==> {
            &&& n.wf()
            &&& n == o.at(n.phase)
            &&& opening_left(n) < opening_left(o)
        },
        o.next(reply) matches OpenStepView::Ready(r) ==> {
            &&& r.wf()
            &&& r == o.region(!(o.phase is Verify))
        },
{
}

/// Whether an opening has been allowed to replace an existing segment.
pub open spec fn may_replace(phase: OpenPhase) -> bool {
    match phase {
        OpenPhase::Create { force_recreate } => force_recreate,
        OpenPhase::Remove => true,
        OpenPhase::Recreate => true,
        _ => false,
    }
}

/// An owner that was not told to recreate never removes a name: where the name exists, it
/// is refused. Neither does an attacher.
pub proof fn law_no_clobbering_without_force(o: OpenView, reply: HostReplyView)
    requires
        o.wf(),
        host::answers(o.op(), reply),
        !may_replace(o.phase),
    ensures
        !(o.op() is Unlink),
        o.next(reply) matches OpenStepView::Next(n) ==> !may_replace(n.phase),
        reply matches HostReplyView::Refused { reason, .. } ==> (o.op() is Create && (
        reason is MappingIdExists || reason is LinkExists) ==> o.next(reply)
            == OpenStepView::Failed(o.clobber_error())),
{
}

/// An owner that was told to recreate gets past an existing name unconditionally: the name
/// is removed and the segment is created anew, whatever stands behind the name, and whatever
/// the removal gave. Nothing of the stale segment is mapped or read.
pub proof fn law_force_recreates(
    o: OpenView,
    refused: HostReplyView,
    removed: HostReplyView,
    created: HostReplyView,
)
    requires
        o.wf(),
        o.phase == (OpenPhase::Create { force_recreate: true }),
        refused matches HostReplyView::Refused { reason, .. } && (reason is MappingIdExists
            || reason is LinkExists),
        removed is Done || removed is Refused,
        created is Mapped,
    ensures
        o.next(refused) == OpenStepView::Next(o.at(OpenPhase::Remove)),
        o.at(OpenPhase::Remove).op() == (HostOpView::Unlink {
            name: namespace::region_name(o.digest),
        }),
        o.at(OpenPhase::Remove).next(removed) == OpenStepView::Next(o.at(OpenPhase::Recreate)),
        o.at(OpenPhase::Recreate).op() == o.op(),
        o.at(OpenPhase::Recreate).next(created) == OpenStepView::Next(o.at(OpenPhase::Clock)),
{
}

/// A segment is known by its identity: a peer with the creator's parameters that maps one with
/// the identity of the creator's, and room enough, gets a region of the same name and geometry
/// that it does not own.
pub proof fn law_identity_admits_peer(
    creator: OpenView,
    epoch_micros: u64,
    mem: Seq<u8>,
    len: usize,
)
    requires
        creator.wf(),
        !(creator.phase is Attach),
        creator.size() <= len,
        mem.len() == len,
        identity(mem.take(128)) == identity(created(creator, epoch_micros).take(128)),
    ensures
        ({
            let peer = creator.at(OpenPhase::Attach);
            let verify = creator.at(OpenPhase::Verify);
            &&& peer.next(HostReplyView::Mapped { len }) == OpenStepView::Next(verify)
            &&& verify.next(HostReplyView::Memory(ReplyView::Bytes(mem.take(128))))
                == OpenStepView::Ready(creator.region(false))
        }),
{
    let verify = creator.at(OpenPhase::Verify);
    region::lemma_offsets(creator.region(true));
    law_attach_follows_creator(creator, epoch_micros, verify);
    lemma_identity(verify, mem.take(128), created(creator, epoch_micros).take(128));
}

/// A peer with the creator's parameters attaches, whatever has been written in the meantime:
/// it maps the segment, finds the creator's header, and gets a region of the same name and
/// geometry that it does not own.
#[verifier::spinoff_prover]
pub proof fn law_peer_attaches(
    creator: OpenView,
    epoch_micros: u64,
    writes: Seq<(u32, Written)>,
    len: usize,
)
    requires
        creator.wf(),
        !(creator.phase is Attach),
        len == creator.size(),
        forall|i: int|
            0 <= i < writes.len() ==> seqlock::write_of(
                creator.region(true),
                (#[trigger] writes[i]).0,
                writes[i].1,
            ).wf(),
    ensures
        ({
            let mem = written_all(creator.region(true), created(creator, epoch_micros), writes);
            let peer = creator.at(OpenPhase::Attach);
            let verify = creator.at(OpenPhase::Verify);
            &&& mem.len() == len
            &&& peer.next(HostReplyView::Mapped { len }) == OpenStepView::Next(verify)
            &&& memory::reply_on(creator.order, mem, verify.op()->Memory_0) == ReplyView::Bytes(
                mem.take(128),
            )
            &&& verify.next(HostReplyView::Memory(ReplyView::Bytes(mem.take(128))))
                == OpenStepView::Ready(creator.region(false))
        }),
{
    let table = creator.region(true);
    let first = created(creator, epoch_micros);
    let mem = written_all(table, first, writes);
    let verify = creator.at(OpenPhase::Verify);
    assert(first.len() == table.size());
    law_writes_keep_identity(table, first, writes, verify);
    law_identity_admits_peer(creator, epoch_micros, mem, len);
    assert(verify.op()->Memory_0 == (OpView::CopyOut { offset: 0, len: GlobalHeader::SIZE }));
    assert(mem.subrange(0, 128) =~= mem.take(128));
}

/// Whether two handles are of one table: they may differ in whether they own it, and in what
/// they call it.
pub open spec fn same_table(a: RegionView, b: RegionView) -> bool {
    &&& a.slot_count == b.slot_count
    &&& a.slot_size_bytes == b.slot_size_bytes
    &&& a.order == b.order
}

/// Handles of one table agree: what one writes is what the other would have written, and
/// what one reads is what the other reads.
pub proof fn law_handles_agree(
    a: RegionView,
    b: RegionView,
    index: u32,
    mem: Seq<u8>,
    what: Written,
)
    requires
        a.wf(),
        b.wf(),
        same_table(a, b),
        index < a.slot_count,
        a.size() <= mem.len(),
    ensures
        read_alone(read_of(a, index), mem) == read_alone(read_of(b, index), mem),
        written(a, index, mem, what) == written(b, index, mem, what),
{
    law_read_gives_content(a, index, mem);
    law_read_gives_content(b, index, mem);
    let sequence = seqlock::sequence_of(a, index, mem) as u64;
    assert(seqlock::write_of(a, index, what).ops(sequence, what.timestamp_nanos)
        =~= seqlock::write_of(b, index, what).ops(sequence, what.timestamp_nanos));
}

/// What one handle writes, another reads: an attached peer reads exactly what the owner wrote
/// (and the owner what a peer wrote), to a slot whose sequence was even.
pub proof fn law_peer_reads_write(
    writer: RegionView,
    reader: RegionView,
    index: u32,
    mem: Seq<u8>,
    what: Written,
)
    requires
        seqlock::write_of(writer, index, what).wf(),
        reader.wf(),
        same_table(writer, reader),
        writer.size() <= mem.len(),
        seqlock::sequence_of(writer, index, mem) % 2 == 0,
    ensures
        read_alone(read_of(reader, index), written(writer, index, mem, what)) == (
        ReadResultView::Slot {
            bytes: what.bytes,
            sequence: slate::published_sequence(
                seqlock::sequence_of(writer, index, mem) as u64,
            ),
            timestamp_nanos: what.timestamp_nanos,
        }),
{
    law_write_lands(writer, index, mem, what);
    law_write_then_read(writer, index, mem, what);
    law_handles_agree(writer, reader, index, written(writer, index, mem, what), what);
}

/// Two peers that pass the same description mean the same region.
pub proof fn law_same_description_same_region(a: SlateConfig, b: SlateConfig)
    requires
        a.description@ == b.description@,
    ensures
        a.digest() == b.digest(),
        namespace::region_name(a.digest()) == namespace::region_name(b.digest()),
{
}

/// `force_recreate` is ignored on attach.
pub proof fn law_force_is_ignored_on_attach(
    a: SlateConfig,
    b: SlateConfig,
    digest: Seq<u8>,
    order: ByteOrder,
)
    requires
        !a.is_owner,
        b == (SlateConfig { force_recreate: !a.force_recreate, ..a }),
    ensures
        a.error() == b.error(),
        a.request(digest, order) == b.request(digest, order),
{
}

/// Unlinking is idempotent, and only the creator may: once the name is removed nothing is
/// left to do and nothing is refused; an attacher is always refused.
pub proof fn law_unlink_is_idempotent(region: RegionView)
    requires
        region.wf(),
    ensures
        region.is_owner ==> region.unlink_error() is None,
        region.is_owner ==> (RegionView { manually_unlinked: true, ..region }).unlink_error() is None,
        !region.is_owner ==> region.unlink_error() is Some,
{
}

/// A name can be handed on: once an owner has removed it, dropping the owner's mapping does
/// not remove it again, so that another owner's region of that name stays. An attacher never
/// removes a name; an owner that has not removed it does so on drop.
pub proof fn law_name_is_removed_once(o: OpenView)
    ensures
        o.region(true).removes_name_on_drop(),
        !(RegionView { manually_unlinked: true, ..o.region(true) }).removes_name_on_drop(),
        !o.region(false).removes_name_on_drop(),
{
}

/// A write is counted only when it can be read: as long as it is not published, the header's
/// counters stand as they stood.
pub proof fn law_counts_follow_publication(
    region: RegionView,
    index: u32,
    mem: Seq<u8>,
    what: Written,
    done: nat,
)
    requires
        seqlock::write_of(region, index, what).wf(),
        region.size() <= mem.len(),
        done <= 9,
    ensures
        ({
            let sequence = seqlock::sequence_of(region, index, mem) as u64;
            let ops = seqlock::write_of(region, index, what).ops(sequence, what.timestamp_nanos);
            let new = memory::after(region.order, mem, ops, done);
            new.len() == mem.len() && (new.take(128) == mem.take(128) || (seqlock::holds(
                region,
                index,
                new,
                what,
            ) && seqlock::sequence_of(region, index, new) == slate::published_sequence(sequence)))
        }),
{
    let slot = region.slot(index) as int;
    region::lemma_slot(region, index);
    byte_order::lemma_value_fits(region.order, mem.subrange(slot, slot + 8));
    let sequence = seqlock::sequence_of(region, index, mem) as u64;
    seqlock::lemma_progress(region, index, mem, what, sequence, done);
    if done <= 7 {
        lemma_header_waits(region, index, mem, what, sequence, done);
    }
}

} // verus!
