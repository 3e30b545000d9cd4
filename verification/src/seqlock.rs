//! Why a reader never sees a torn payload.
//!
//! The states of one slot's writer and of the region's bytes are followed step by step,
//! with everybody else at work on the rest of the region in between. A copy is not one
//! step: its bytes arrive one by one in any order, and a reader that copies a payload may
//! find each byte at another moment. Steps follow one another in one order that all sides
//! agree on; [`crate::ordering`] does without such an order.
use vstd::prelude::*;

use crate::byte_order;
use crate::header;
use crate::memory;
use crate::memory::{OpView, ReplyView};
use crate::region;
use crate::region::RegionView;
use crate::slate;
use crate::slate::{ReadPhaseView, ReadResultView, ReadStepView, ReadView, WriteView};

verus! {

/// What a writer puts into a slot.
pub struct Written {
    pub bytes: Seq<u8>,
    pub timestamp_nanos: u64,
}

/// The write of `what` to slot `index`.
pub open spec fn write_of(region: RegionView, index: u32, what: Written) -> WriteView {
    WriteView { region, index, bytes: what.bytes }
}

/// How many operations a write takes after its load.
pub open spec fn write_len() -> nat {
    9
}

/// How many of them have been performed once the slot is marked as being written.
pub open spec fn marked() -> nat {
    1
}

/// How many of them have been performed once the write is published.
pub open spec fn published() -> nat {
    7
}

/// How many writes it takes until a sequence comes round: as many as there are even numbers
/// between zero and 2^64.
pub open spec fn round() -> nat {
    0x7FFF_FFFF_FFFF_FFFF
}

/// The sequence of a slot after its `n`-th write: zero before the first, and then twice the
/// number of the write, round by round.
pub open spec fn sequence_after(n: nat) -> nat {
    if n == 0 {
        0
    } else {
        2 * ((n - 1) as nat % round() + 1)
    }
}

/// A slot's sequence is even after every write, zero before the first alone, and goes on to
/// the next.
pub proof fn lemma_sequence(n: nat)
    ensures
        sequence_after(n) <= u64::MAX - 1,
        sequence_after(n) % 2 == 0,
        sequence_after(n) == 0 <==> n == 0,
        slate::marked_sequence(sequence_after(n) as u64) == sequence_after(n) + 1,
        slate::published_sequence(sequence_after(n) as u64) == sequence_after(n + 1),
{
}

/// Whether no sequence other than zero recurs on the way from `a` writes to `b` writes: fewer
/// than [`round`] are made after the first of them.
pub open spec fn within_a_round(a: nat, b: nat) -> bool {
    b < a + round() || (a == 0 && b == round())
}

/// A sequence that has not come round tells the write.
pub proof fn lemma_sequence_tells(a: nat, b: nat)
    requires
        0 < a <= b < a + round(),
        sequence_after(a) == sequence_after(b),
    ensures
        a == b,
{
}

/// Whether slot `index` holds exactly what was written.
pub open spec fn holds(region: RegionView, index: u32, mem: Seq<u8>, what: Written) -> bool {
    &&& header::field(mem, region.payload(index) as int, what.bytes.len() as int) == what.bytes
    &&& header::field(mem, region.slot(index) + header::SLOT_LENGTH_OFFSET, 4)
        == byte_order::int_bytes(region.order, what.bytes.len(), 4)
    &&& header::field(mem, region.slot(index) + header::SLOT_TIMESTAMP_OFFSET, 8)
        == byte_order::int_bytes(region.order, what.timestamp_nanos as nat, 8)
}

/// The sequence of slot `index`.
pub open spec fn sequence_of(region: RegionView, index: u32, mem: Seq<u8>) -> nat {
    memory::word(region.order, mem, region.slot(index) as int)
}

/// What `done` operations of a write leave in the slot: its sequence, and as much of its
/// content as has been copied.
pub open spec fn progress(
    region: RegionView,
    index: u32,
    mem: Seq<u8>,
    what: Written,
    sequence: u64,
    done: nat,
) -> bool {
    let slot = region.slot(index) as int;
    &&& sequence_of(region, index, mem) == if done < marked() {
        sequence
    } else if done < published() {
        slate::marked_sequence(sequence)
    } else {
        slate::published_sequence(sequence)
    }
    &&& done >= 3 ==> header::field(mem, region.payload(index) as int, what.bytes.len() as int)
        == what.bytes
    &&& done >= 4 ==> header::field(mem, slot + header::SLOT_LENGTH_OFFSET, 4)
        == byte_order::int_bytes(region.order, what.bytes.len(), 4)
    &&& done >= 5 ==> header::field(mem, slot + header::SLOT_TIMESTAMP_OFFSET, 8)
        == byte_order::int_bytes(region.order, what.timestamp_nanos as nat, 8)
}

/// Whether `new` can stand in the region while `bytes` are being copied to `at`: any of
/// them may have arrived.
pub open spec fn partly_copied(old: Seq<u8>, new: Seq<u8>, at: int, bytes: Seq<u8>) -> bool {
    &&& new.len() == old.len()
    &&& forall|i: int|
        0 <= i < old.len() ==> {
            ||| #[trigger] new[i] == old[i]
            ||| at <= i < at + bytes.len() && new[i] == bytes[i - at]
        }
}

/// Whether two images of the region agree on slot `index`.
pub open spec fn same_slot(region: RegionView, index: u32, a: Seq<u8>, b: Seq<u8>) -> bool {
    &&& a.len() == b.len()
    &&& forall|i: int|
        region.slot(index) <= i < region.slot(index) + header::stride(region.slot_size_bytes)
            ==> #[trigger] a[i] == b[i]
}

/// One operation of a write takes its progress one further.
proof fn lemma_perform(
    region: RegionView,
    index: u32,
    mem: Seq<u8>,
    what: Written,
    sequence: u64,
    done: nat,
)
    requires
        write_of(region, index, what).wf(),
        region.size() <= mem.len(),
        done < write_len(),
        progress(region, index, mem, what, sequence, done),
    ensures
        ({
            let op = write_of(region, index, what).ops(sequence, what.timestamp_nanos)[done as int];
            let new = memory::effect(region.order, mem, op);
            &&& new.len() == mem.len()
            &&& progress(region, index, new, what, sequence, done + 1)
            &&& done >= published() ==> same_slot(region, index, mem, new)
        }),
{
    broadcast use byte_order::lemma_int_bytes_len;

    region::lemma_slot(region, index);
    byte_order::lemma_int_counts();
    byte_order::law_number_survives(
        region.order,
        slate::marked_sequence(sequence) as nat,
        8,
    );
    byte_order::law_number_survives(
        region.order,
        slate::published_sequence(sequence) as nat,
        8,
    );
    let slot = region.slot(index) as int;
    let op = write_of(region, index, what).ops(sequence, what.timestamp_nanos)[done as int];
    let new = memory::effect(region.order, mem, op);
    assert(new.len() == mem.len());
    let n = what.bytes.len() as int;
    if done == 0 {
        assert(new.subrange(slot, slot + 8) =~= byte_order::int_bytes(
            region.order,
            slate::marked_sequence(sequence) as nat,
            8,
        ));
    } else if done == 6 {
        assert(new.subrange(slot, slot + 8) =~= byte_order::int_bytes(
            region.order,
            slate::published_sequence(sequence) as nat,
            8,
        ));
    } else {
        assert(new.subrange(slot, slot + 8) =~= mem.subrange(slot, slot + 8));
    }
    if done == 2 {
        assert(header::field(new, slot + 32, n) =~= what.bytes);
    } else {
        assert(header::field(new, slot + 32, n) =~= header::field(mem, slot + 32, n));
    }
    if done == 3 {
        assert(header::field(new, slot + 8, 4) =~= byte_order::int_bytes(
            region.order,
            what.bytes.len(),
            4,
        ));
    } else {
        assert(header::field(new, slot + 8, 4) =~= header::field(mem, slot + 8, 4));
    }
    if done == 4 {
        assert(header::field(new, slot + 16, 8) =~= byte_order::int_bytes(
            region.order,
            what.timestamp_nanos as nat,
            8,
        ));
    } else {
        assert(header::field(new, slot + 16, 8) =~= header::field(mem, slot + 16, 8));
    }
}

/// A write takes its progress through all of its operations.
pub proof fn lemma_progress(
    region: RegionView,
    index: u32,
    mem: Seq<u8>,
    what: Written,
    sequence: u64,
    done: nat,
)
    requires
        write_of(region, index, what).wf(),
        region.size() <= mem.len(),
        done <= write_len(),
        sequence == sequence_of(region, index, mem),
    ensures
        ({
            let ops = write_of(region, index, what).ops(sequence, what.timestamp_nanos);
            let new = memory::after(region.order, mem, ops, done);
            &&& new.len() == mem.len()
            &&& progress(region, index, new, what, sequence, done)
        }),
    decreases done,
{
    if done > 0 {
        let ops = write_of(region, index, what).ops(sequence, what.timestamp_nanos);
        let before = memory::after(region.order, mem, ops, (done - 1) as nat);
        lemma_progress(region, index, mem, what, sequence, (done - 1) as nat);
        lemma_perform(region, index, before, what, sequence, (done - 1) as nat);
    }
}

/// A copy that is under way leaves the progress of its write as it was.
proof fn lemma_partial(
    region: RegionView,
    index: u32,
    mem: Seq<u8>,
    new: Seq<u8>,
    what: Written,
    sequence: u64,
    done: nat,
)
    requires
        write_of(region, index, what).wf(),
        region.size() <= mem.len(),
        done < write_len(),
        progress(region, index, mem, what, sequence, done),
        write_of(region, index, what).ops(sequence, what.timestamp_nanos)[done as int] matches OpView::CopyIn { offset, bytes }
            && partly_copied(mem, new, offset as int, bytes),
    ensures
        progress(region, index, new, what, sequence, done),
        marked() <= done < published(),
{
    broadcast use byte_order::lemma_int_bytes_len;

    region::lemma_slot(region, index);
    let slot = region.slot(index) as int;
    let n = what.bytes.len() as int;
    assert(new.subrange(slot, slot + 8) =~= mem.subrange(slot, slot + 8));
    if done > 2 {
        assert(header::field(new, slot + 32, n) =~= header::field(mem, slot + 32, n));
    }
    if done > 3 {
        assert(header::field(new, slot + 8, 4) =~= header::field(mem, slot + 8, 4));
    }
}

/// What the writer of a slot is doing.
pub enum Writer {
    /// Nothing.
    Idle,
    /// It loaded `sequence` and has performed `done` operations of the write of `what`.
    Writing { what: Written, sequence: u64, done: nat },
}

/// A moment: the region's bytes, what the slot's writer is doing, and the writes that it has
/// been through, oldest first.
pub struct Moment {
    pub mem: Seq<u8>,
    pub writer: Writer,
    pub past: Seq<Written>,
}

impl Moment {
    /// The writes that a reader may see: those that the writer has been through, and the
    /// one in hand once it is published.
    pub open spec fn history(self) -> Seq<Written> {
        match self.writer {
            Writer::Writing { what, done, .. } if done >= published() => self.past.push(what),
            _ => self.past,
        }
    }

    /// Whether the slot is marked as being written.
    pub open spec fn mid_write(self) -> bool {
        self.writer matches Writer::Writing { done, .. } && marked() <= done < published()
    }

    /// Twice the number of writes that a reader may see, and one more in the middle of a
    /// write.
    pub open spec fn ticks(self) -> nat {
        2 * self.history().len() + if self.mid_write() {
            1nat
        } else {
            0nat
        }
    }

    /// The slot's sequence.
    pub open spec fn sequence(self) -> nat {
        sequence_after(self.history().len()) + if self.mid_write() {
            1nat
        } else {
            0nat
        }
    }

    /// What holds at every moment: the sequence counts the writes, round by round; outside of
    /// a write the slot holds the last write that was published; inside, what has been
    /// copied so far.
    pub open spec fn wf(self, region: RegionView, index: u32) -> bool {
        &&& region.wf()
        &&& index < region.slot_count
        &&& region.size() <= self.mem.len()
        &&& sequence_of(region, index, self.mem) == self.sequence()
        &&& !self.mid_write() && self.history().len() > 0 ==> holds(
            region,
            index,
            self.mem,
            self.history().last(),
        )
        &&& forall|i: int|
            0 <= i < self.past.len() ==> (#[trigger] self.past[i]).bytes.len()
                <= region.slot_size_bytes
        &&& self.writer matches Writer::Writing { what, sequence, done } ==> {
            &&& write_of(region, index, what).wf()
            &&& done <= write_len()
            &&& sequence == sequence_after(self.past.len())
            &&& progress(region, index, self.mem, what, sequence, done)
        }
    }
}

/// The moment of a table that was just created: nothing was ever written to the slot.
pub open spec fn fresh(region: RegionView, index: u32, m: Moment) -> bool {
    &&& region.wf()
    &&& index < region.slot_count
    &&& region.size() <= m.mem.len()
    &&& sequence_of(region, index, m.mem) == 0
    &&& m.writer is Idle
    &&& m.past.len() == 0
}

/// Whether one moment can follow another.
///
/// - The writer begins a write: it loads the slot's sequence.
/// - It performs the next operation of its write.
/// - It is in the middle of a copy, and some of the bytes have arrived.
/// - It is done with its write.
/// - Somebody else does something outside of the slot.
pub open spec fn follows(region: RegionView, index: u32, a: Moment, b: Moment) -> bool {
    ||| {
        &&& a.writer is Idle
        &&& b.writer matches Writer::Writing { what, sequence, done }
        &&& what.bytes.len() <= region.slot_size_bytes
        &&& sequence == sequence_of(region, index, a.mem)
        &&& done == 0
        &&& b.mem == a.mem
        &&& b.past == a.past
    }
    ||| {
        &&& a.writer matches Writer::Writing { what, sequence, done }
        &&& done < write_len()
        &&& b.writer == (Writer::Writing { what, sequence, done: done + 1 })
        &&& b.mem == memory::effect(
            region.order,
            a.mem,
            write_of(region, index, what).ops(sequence, what.timestamp_nanos)[done as int],
        )
        &&& b.past == a.past
    }
    ||| {
        &&& a.writer matches Writer::Writing { what, sequence, done }
        &&& done < write_len()
        &&& write_of(region, index, what).ops(
            sequence,
            what.timestamp_nanos,
        )[done as int] matches OpView::CopyIn { offset, bytes }
        &&& partly_copied(a.mem, b.mem, offset as int, bytes)
        &&& b.writer == a.writer
        &&& b.past == a.past
    }
    ||| {
        &&& a.writer matches Writer::Writing { what, sequence, done }
        &&& done == write_len()
        &&& b.writer is Idle
        &&& b.mem == a.mem
        &&& b.past == a.past.push(what)
    }
    ||| {
        &&& same_slot(region, index, a.mem, b.mem)
        &&& b.writer == a.writer
        &&& b.past == a.past
    }
}

/// Agreement on a slot carries over whatever is said of the slot.
proof fn lemma_same_slot(region: RegionView, index: u32, a: Seq<u8>, b: Seq<u8>)
    requires
        region.wf(),
        index < region.slot_count,
        region.size() <= a.len(),
        same_slot(region, index, a, b),
    ensures
        sequence_of(region, index, a) == sequence_of(region, index, b),
        forall|what: Written|
            what.bytes.len() <= region.slot_size_bytes && #[trigger] holds(region, index, a, what)
                ==> holds(region, index, b, what),
        forall|what: Written, sequence: u64, done: nat|
            what.bytes.len() <= region.slot_size_bytes && #[trigger] progress(
                region,
                index,
                a,
                what,
                sequence,
                done,
            ) ==> progress(region, index, b, what, sequence, done),
{
    region::lemma_slot(region, index);
    let slot = region.slot(index) as int;
    assert(a.subrange(slot, slot + 8) =~= b.subrange(slot, slot + 8));
    assert(header::field(a, slot + 8, 4) =~= header::field(b, slot + 8, 4));
    assert(header::field(a, slot + 16, 8) =~= header::field(b, slot + 16, 8));
    assert forall|n: int| 0 <= n <= region.slot_size_bytes implies #[trigger] header::field(
        a,
        slot + 32,
        n,
    ) == header::field(b, slot + 32, n) by {
        assert(header::field(a, slot + 32, n) =~= header::field(b, slot + 32, n));
    }
}

/// What holds at every moment holds at the next; the ticks never go back, and go on by one
/// at most; and while they stand still outside of a write, the slot does too.
proof fn lemma_step(region: RegionView, index: u32, a: Moment, b: Moment)
    requires
        a.wf(region, index),
        follows(region, index, a, b),
    ensures
        b.wf(region, index),
        a.ticks() <= b.ticks() <= a.ticks() + 1,
        a.ticks() == b.ticks() && !a.mid_write() ==> same_slot(region, index, a.mem, b.mem)
            && b.history() == a.history(),
        a.history().is_prefix_of(b.history()),
{
    region::lemma_slot(region, index);
    if same_slot(region, index, a.mem, b.mem) && b.writer == a.writer && b.past == a.past {
        lemma_same_slot(region, index, a.mem, b.mem);
        if a.history().len() > 0 {
            assert(a.history().last().bytes.len() <= region.slot_size_bytes);
        }
    } else {
        match a.writer {
            Writer::Idle => {},
            Writer::Writing { what, sequence, done } => {
                let ops = write_of(region, index, what).ops(sequence, what.timestamp_nanos);
                if done < write_len() && b.writer == (Writer::Writing {
                    what,
                    sequence,
                    done: done + 1,
                }) {
                    lemma_perform(region, index, a.mem, what, sequence, done);
                    assert(a.past.push(what).last() == what);
                } else if done < write_len() {
                    lemma_partial(region, index, a.mem, b.mem, what, sequence, done);
                } else {
                    assert(a.past.push(what).last() == what);
                }
            },
        }
    }
}

/// Whether `trace` is what can happen to a slot from its creation on.
pub open spec fn is_trace(region: RegionView, index: u32, trace: Seq<Moment>) -> bool {
    &&& trace.len() > 0
    &&& fresh(region, index, trace[0])
    &&& forall|t: int|
        0 <= t < trace.len() - 1 ==> #[trigger] follows(region, index, trace[t], trace[t + 1])
}

/// A slot that was never written is empty and idle.
proof fn lemma_fresh(region: RegionView, index: u32, m: Moment)
    requires
        fresh(region, index, m),
    ensures
        m.wf(region, index),
        m.ticks() == 0,
{
}

/// What holds at every moment of a trace.
proof fn lemma_trace(region: RegionView, index: u32, trace: Seq<Moment>, t: int)
    requires
        is_trace(region, index, trace),
        0 <= t < trace.len(),
    ensures
        trace[t].wf(region, index),
    decreases t,
{
    if t == 0 {
        lemma_fresh(region, index, trace[0]);
    } else {
        lemma_trace(region, index, trace, t - 1);
        assert(follows(region, index, trace[t - 1], trace[t - 1 + 1]));
        lemma_step(region, index, trace[t - 1], trace[t]);
    }
}

/// Between two moments of a trace the ticks do not go back, and if they stand still outside
/// of a write, so does the slot.
proof fn lemma_between(region: RegionView, index: u32, trace: Seq<Moment>, a: int, b: int)
    requires
        is_trace(region, index, trace),
        0 <= a <= b < trace.len(),
    ensures
        trace[a].ticks() <= trace[b].ticks(),
        trace[a].ticks() == trace[b].ticks() && !trace[a].mid_write() ==> {
            &&& same_slot(region, index, trace[a].mem, trace[b].mem)
            &&& trace[a].history() == trace[b].history()
            &&& !trace[b].mid_write()
        },
        trace[a].history().is_prefix_of(trace[b].history()),
    decreases b - a,
{
    if a < b {
        lemma_between(region, index, trace, a, b - 1);
        lemma_trace(region, index, trace, b - 1);
        assert(follows(region, index, trace[b - 1], trace[b - 1 + 1]));
        lemma_step(region, index, trace[b - 1], trace[b]);
    }
}

/// Ticks are passed one by one: a trace that goes beyond a tick was there.
proof fn lemma_ticks_are_passed(
    region: RegionView,
    index: u32,
    trace: Seq<Moment>,
    a: int,
    b: int,
    tick: nat,
) -> (t: int)
    requires
        is_trace(region, index, trace),
        0 <= a <= b < trace.len(),
        trace[a].ticks() <= tick <= trace[b].ticks(),
    ensures
        a <= t <= b,
        trace[t].ticks() == tick,
    decreases b - a,
{
    if trace[a].ticks() == tick {
        a
    } else {
        assert(a < b);
        lemma_trace(region, index, trace, a);
        assert(follows(region, index, trace[a], trace[a + 1]));
        lemma_step(region, index, trace[a], trace[a + 1]);
        lemma_ticks_are_passed(region, index, trace, a + 1, b, tick)
    }
}

/// Whether `op`, performed between the moments `from` and `to`, can give `reply`. A load
/// finds the number of one moment; each byte of a copy may be of another.
pub open spec fn observed(
    region: RegionView,
    trace: Seq<Moment>,
    from: int,
    to: int,
    op: OpView,
    reply: ReplyView,
) -> bool {
    &&& memory::answers(op, reply)
    &&& match (op, reply) {
        (OpView::Load { offset, .. }, ReplyView::Value(v)) => exists|t: int|
            from <= t <= to && v == #[trigger] memory::word(
                region.order,
                trace[t].mem,
                offset as int,
            ),
        (OpView::CopyOut { offset, .. }, ReplyView::Bytes(b)) => forall|j: int|
            #![trigger b[j]]
            0 <= j < b.len() ==> exists|t: int|
                from <= t <= to && b[j] == #[trigger] trace[t].mem[offset + j],
        _ => true,
    }
}

/// One step of a reader: the read as it stood, and the reply it got to its operation
/// between two moments.
pub struct Glance {
    pub read: ReadView,
    pub from: int,
    pub to: int,
    pub reply: ReplyView,
}

/// Whether `run` is a whole read of slot `index` within `trace`: from the first look at
/// the sequence, step by step, to `result`.
pub open spec fn is_read(
    region: RegionView,
    index: u32,
    trace: Seq<Moment>,
    run: Seq<Glance>,
    result: ReadResultView,
) -> bool {
    &&& run.len() > 0
    &&& run[0].read.phase is Sequence
    &&& forall|k: int|
        0 <= k < run.len() ==> {
            let g = #[trigger] run[k];
            &&& g.read.wf()
            &&& g.read.region == region
            &&& g.read.index == index
            &&& 0 <= g.from <= g.to < trace.len()
            &&& observed(region, trace, g.from, g.to, g.read.op(), g.reply)
        }
    &&& forall|k: int|
        0 <= k < run.len() - 1 ==> {
            &&& #[trigger] run[k].read.next(run[k].reply) == ReadStepView::Next(run[k + 1].read)
            &&& run[k].to <= run[k + 1].from
        }
    &&& run.last().read.next(run.last().reply) == ReadStepView::Finished(result)
}

/// The steps of a read follow one another in time.
proof fn lemma_read_order(
    region: RegionView,
    index: u32,
    trace: Seq<Moment>,
    run: Seq<Glance>,
    result: ReadResultView,
    j: int,
    k: int,
)
    requires
        is_read(region, index, trace, run, result),
        0 <= j < k < run.len(),
    ensures
        run[j].to <= run[k].from,
    decreases k - j,
{
    assert(run[k - 1].read.next(run[k - 1].reply) == ReadStepView::Next(run[k - 1 + 1].read));
    if j < k - 1 {
        lemma_read_order(region, index, trace, run, result, j, k - 1);
        assert(run[k - 1].from <= run[k - 1].to);
    }
}

/// A load of the slot's sequence finds that of a moment: odd in the middle of a write, and
/// zero before the first.
proof fn lemma_load(region: RegionView, index: u32, trace: Seq<Moment>, g: Glance) -> (t: int)
    requires
        is_trace(region, index, trace),
        g.read.wf(),
        g.read.region == region,
        g.read.index == index,
        0 <= g.from <= g.to < trace.len(),
        g.read.phase is Sequence || g.read.phase is Recheck,
        observed(region, trace, g.from, g.to, g.read.op(), g.reply),
    ensures
        g.from <= t <= g.to,
        g.reply == ReplyView::Value(trace[t].sequence() as u64),
        trace[t].sequence() <= u64::MAX,
        trace[t].sequence() % 2 == 1 <==> trace[t].mid_write(),
        trace[t].sequence() == 0 ==> trace[t].history().len() == 0,
{
    region::lemma_slot(region, index);
    let v = g.reply->Value_0;
    let offset = region.slot(index) as int;
    let t = choose|t: int|
        g.from <= t <= g.to && v == #[trigger] memory::word(region.order, trace[t].mem, offset);
    lemma_trace(region, index, trace, t);
    lemma_sequence(trace[t].history().len());
    t
}

/// A copy out of a slot that stands still gives what the slot holds.
proof fn lemma_copy(
    region: RegionView,
    index: u32,
    trace: Seq<Moment>,
    first: int,
    last: int,
    from: int,
    to: int,
    offset: usize,
    b: Seq<u8>,
)
    requires
        is_trace(region, index, trace),
        0 <= first <= from <= to <= last < trace.len(),
        trace[first].ticks() == trace[last].ticks(),
        !trace[first].mid_write(),
        region.slot(index) <= offset,
        offset + b.len() <= region.slot(index) + header::stride(region.slot_size_bytes),
        observed(
            region,
            trace,
            from,
            to,
            OpView::CopyOut { offset, len: b.len() as usize },
            ReplyView::Bytes(b),
        ),
    ensures
        b == header::field(trace[first].mem, offset as int, b.len() as int),
{
    lemma_trace(region, index, trace, first);
    region::lemma_slot(region, index);
    assert forall|j: int| 0 <= j < b.len() implies b[j] == trace[first].mem[offset + j] by {
        let t = choose|t: int| from <= t <= to && b[j] == #[trigger] trace[t].mem[offset + j];
        lemma_between(region, index, trace, first, t);
        lemma_between(region, index, trace, t, last);
    }
    assert(b =~= header::field(trace[first].mem, offset as int, b.len() as int));
}

/// A read comes to its second look at the sequence through the five steps before it: the
/// first look, which found an even sequence other than zero, the copies, and the fence.
proof fn lemma_attempt(
    region: RegionView,
    index: u32,
    trace: Seq<Moment>,
    run: Seq<Glance>,
    result: ReadResultView,
    k: int,
)
    requires
        is_read(region, index, trace, run, result),
        0 <= k < run.len(),
        run[k].read.phase is Recheck,
    ensures
        k >= 5,
        run[k - 5].read.phase is Sequence,
        run[k - 5].reply == ReplyView::Value(run[k].read.phase->Recheck_sequence),
        run[k].read.phase->Recheck_sequence != 0,
        run[k].read.phase->Recheck_sequence % 2 == 0,
        run[k - 4].read.phase is Length,
        run[k - 4].reply is Bytes,
        run[k - 3].read.phase is Timestamp,
        run[k - 3].reply is Bytes,
        run[k - 2].read.phase is Payload,
        run[k - 2].read == run[k - 3].read.next(run[k - 3].reply)->Next_0,
        run[k - 3].read == run[k - 4].read.next(run[k - 4].reply)->Next_0,
        run[k - 2].reply == ReplyView::Bytes(run[k].read.phase->Recheck_bytes),
        run[k].read.phase->Recheck_timestamp_nanos
            == run[k - 2].read.phase->Payload_timestamp_nanos,
        run[k - 5].to <= run[k - 4].from,
        run[k - 4].to <= run[k - 3].from,
        run[k - 3].to <= run[k - 2].from,
        run[k - 2].to <= run[k].from,
{
    let g4 = run[k - 1];
    assert(g4.read.next(g4.reply) == ReadStepView::Next(run[k - 1 + 1].read));
    let g3 = run[k - 2];
    assert(g3.read.next(g3.reply) == ReadStepView::Next(run[k - 2 + 1].read));
    let g2 = run[k - 3];
    assert(g2.read.next(g2.reply) == ReadStepView::Next(run[k - 3 + 1].read));
    let g1 = run[k - 4];
    assert(g1.read.next(g1.reply) == ReadStepView::Next(run[k - 4 + 1].read));
    let g0 = run[k - 5];
    assert(g0.read.next(g0.reply) == ReadStepView::Next(run[k - 5 + 1].read));
}

/// A reader never sees a torn payload. A read that gives a slot gives the bytes and the
/// timestamp of one write, whole; and there was a moment during the read when that write
/// was the last one published, and no other was under way. The sequence is twice the count
/// of writes up to that one, round by round.
///
/// The writer may not come round to the same sequence during the read, which takes [`round`]
/// writes.
pub proof fn law_reads_are_coherent(
    region: RegionView,
    index: u32,
    trace: Seq<Moment>,
    run: Seq<Glance>,
    result: ReadResultView,
) -> (t: int)
    requires
        is_trace(region, index, trace),
        is_read(region, index, trace, run, result),
        within_a_round(
            trace[run[0].from].history().len(),
            trace[run.last().to].history().len(),
        ),
        result is Slot,
    ensures
        run[0].from <= t <= run.last().to,
        !trace[t].mid_write(),
        trace[t].history().len() > 0,
        result == (ReadResultView::Slot {
            bytes: trace[t].history().last().bytes,
            sequence: sequence_after(trace[t].history().len()) as u64,
            timestamp_nanos: trace[t].history().last().timestamp_nanos,
        }),
{
    broadcast use byte_order::lemma_int_bytes_len;

    region::lemma_slot(region, index);
    let n = run.len() as int;
    lemma_attempt(region, index, trace, run, result, n - 1);
    let g0 = run[n - 6];
    let g1 = run[n - 5];
    let g2 = run[n - 4];
    let g3 = run[n - 3];
    let g5 = run[n - 1];

    // The sequence was the same at both looks, so the slot stood still in between.
    let t = lemma_load(region, index, trace, g0);
    let u = lemma_load(region, index, trace, g5);
    if n > 6 {
        lemma_read_order(region, index, trace, run, result, 0, n - 6);
    }
    let sequence = g0.reply->Value_0;
    lemma_trace(region, index, trace, t);
    lemma_trace(region, index, trace, u);
    lemma_between(region, index, trace, run[0].from, t);
    lemma_between(region, index, trace, t, u);
    lemma_between(region, index, trace, u, g5.to);
    assert(sequence != 0 && sequence % 2 == 0);
    assert(trace[t].history().len() > 0);
    lemma_sequence_tells(trace[t].history().len(), trace[u].history().len());
    let what = trace[t].history().last();
    assert(holds(region, index, trace[t].mem, what));
    assert(what.bytes.len() <= region.slot_size_bytes);

    // So what was copied is what it held.
    let b1 = g1.reply->Bytes_0;
    let b2 = g2.reply->Bytes_0;
    let b3 = g3.reply->Bytes_0;
    let slot = region.slot(index);
    lemma_copy(region, index, trace, t, u, g1.from, g1.to, (slot + 8) as usize, b1);
    lemma_copy(region, index, trace, t, u, g2.from, g2.to, (slot + 16) as usize, b2);
    lemma_copy(region, index, trace, t, u, g3.from, g3.to, (slot + 32) as usize, b3);
    byte_order::lemma_int_counts();
    byte_order::law_number_survives(region.order, what.bytes.len(), 4);
    byte_order::law_number_survives(region.order, what.timestamp_nanos as nat, 8);
    t
}

/// A read finds the slot empty only at a moment when nothing had ever been written to it.
pub proof fn law_empty_means_unwritten(
    region: RegionView,
    index: u32,
    trace: Seq<Moment>,
    run: Seq<Glance>,
    result: ReadResultView,
) -> (t: int)
    requires
        is_trace(region, index, trace),
        is_read(region, index, trace, run, result),
        result is Empty,
    ensures
        run[0].from <= t <= run.last().to,
        trace[t].history().len() == 0,
        !trace[t].mid_write(),
{
    let n = run.len() as int;
    if n > 1 {
        lemma_read_order(region, index, trace, run, result, 0, n - 1);
    }
    lemma_load(region, index, trace, run[n - 1])
}

/// An attempt of a read that gives up ends with a collision: at its first look at the
/// sequence, which was odd, or at its second, which found another. The next attempt, if
/// there is one, comes right after it.
proof fn lemma_attempt_ends(
    region: RegionView,
    index: u32,
    trace: Seq<Moment>,
    run: Seq<Glance>,
    result: ReadResultView,
    k: int,
) -> (e: int)
    requires
        is_read(region, index, trace, run, result),
        result is Torn,
        0 <= k < run.len(),
        run[k].read.phase is Sequence,
    ensures
        k <= e < run.len(),
        forall|j: int| k <= j <= e ==> (#[trigger] run[j]).read.attempts == run[k].read.attempts,
        e == k && run[k].reply->Value_0 % 2 == 1 || e == k + 5 && run[e].read.phase is Recheck
            && run[e].reply->Value_0 != run[e].read.phase->Recheck_sequence,
        e < run.len() - 1 ==> {
            &&& run[e + 1].read.phase is Sequence
            &&& run[e + 1].read.attempts == run[k].read.attempts - 1
        },
        e == run.len() - 1 ==> run[k].read.attempts == 1,
{
    let n = run.len() as int;
    if k < n - 1 {
        assert(run[k].read.next(run[k].reply) == ReadStepView::Next(run[k + 1].read));
    }
    if run[k].reply->Value_0 % 2 == 1 {
        k
    } else {
        assert(run[k + 1].read.phase is Length);
        assert(run[k + 1].read.next(run[k + 1].reply) == ReadStepView::Next(run[k + 1 + 1].read));
        assert(run[k + 2].read.next(run[k + 2].reply) == ReadStepView::Next(run[k + 2 + 1].read));
        assert(run[k + 3].read.next(run[k + 3].reply) == ReadStepView::Next(run[k + 3 + 1].read));
        assert(run[k + 4].read.next(run[k + 4].reply) == ReadStepView::Next(run[k + 4 + 1].read));
        if k + 5 < n - 1 {
            assert(run[k + 5].read.next(run[k + 5].reply) == ReadStepView::Next(
                run[k + 5 + 1].read,
            ));
        }
        k + 5
    }
}

/// A read that gives up has made every attempt that it had.
proof fn lemma_attempt_starts(
    region: RegionView,
    index: u32,
    trace: Seq<Moment>,
    run: Seq<Glance>,
    result: ReadResultView,
    k: int,
    attempt: nat,
) -> (s: int)
    requires
        is_read(region, index, trace, run, result),
        result is Torn,
        0 <= k < run.len(),
        run[k].read.phase is Sequence,
        1 <= attempt <= run[k].read.attempts,
    ensures
        k <= s < run.len(),
        run[s].read.phase is Sequence,
        run[s].read.attempts == attempt,
    decreases run[k].read.attempts,
{
    if run[k].read.attempts == attempt {
        k
    } else {
        let e = lemma_attempt_ends(region, index, trace, run, result, k);
        lemma_attempt_starts(region, index, trace, run, result, e + 1, attempt)
    }
}

/// A read gives up only after every one of its attempts has met a write under way. Of the
/// attempt that is made with `attempt` left, the result is its first step and a moment
/// during it (before any later attempt) when the slot was being written.
pub proof fn law_torn_means_collisions(
    region: RegionView,
    index: u32,
    trace: Seq<Moment>,
    run: Seq<Glance>,
    result: ReadResultView,
    attempt: nat,
) -> (r: (int, int))
    requires
        is_trace(region, index, trace),
        is_read(region, index, trace, run, result),
        result is Torn,
        1 <= attempt <= run[0].read.attempts,
    ensures
        0 <= r.0 < run.len(),
        run[r.0].read.phase is Sequence,
        run[r.0].read.attempts == attempt,
        run[0].from <= run[r.0].from <= r.1 <= run.last().to,
        forall|k: int|
            r.0 < k < run.len() && (#[trigger] run[k]).read.attempts < attempt ==> r.1
                <= run[k].from,
        trace[r.1].mid_write(),
{
    let s = lemma_attempt_starts(region, index, trace, run, result, 0, attempt);
    let e = lemma_attempt_ends(region, index, trace, run, result, s);
    let t = lemma_load(region, index, trace, run[s]);
    let moment = if e == s {
        assert(trace[t].mid_write());
        t
    } else {
        lemma_attempt(region, index, trace, run, result, e);
        lemma_read_order(region, index, trace, run, result, s, e);
        let u = lemma_load(region, index, trace, run[e]);
        lemma_between(region, index, trace, t, u);
        assert(!trace[t].mid_write());
        lemma_ticks_are_passed(region, index, trace, t, u, trace[t].ticks() + 1)
    };
    assert forall|k: int| s < k < run.len() && (#[trigger] run[k]).read.attempts
        < attempt implies moment <= run[k].from by {
        assert(k > e);
        lemma_read_order(region, index, trace, run, result, e, k);
    }
    if s > 0 {
        lemma_read_order(region, index, trace, run, result, 0, s);
        assert(run[0].from <= run[0].to);
    }
    if e < run.len() - 1 {
        lemma_read_order(region, index, trace, run, result, e, run.len() - 1);
        assert(run.last().from <= run.last().to);
    }
    (s, moment)
}

/// Readers converge: a read during which no write comes between gives the last write that
/// was published, and an empty slot exactly where there is none.
pub proof fn law_quiet_reads_converge(
    region: RegionView,
    index: u32,
    trace: Seq<Moment>,
    run: Seq<Glance>,
    result: ReadResultView,
)
    requires
        is_trace(region, index, trace),
        is_read(region, index, trace, run, result),
        !trace[run[0].from].mid_write(),
        trace[run[0].from].ticks() == trace[run.last().to].ticks(),
    ensures
        ({
            let history = trace[run[0].from].history();
            if history.len() == 0 {
                result == ReadResultView::Empty
            } else {
                result == (ReadResultView::Slot {
                    bytes: history.last().bytes,
                    sequence: sequence_after(history.len()) as u64,
                    timestamp_nanos: history.last().timestamp_nanos,
                })
            }
        }),
{
    let a = run[0].from;
    let b = run.last().to;
    if run.len() > 1 {
        lemma_read_order(region, index, trace, run, result, 0, run.len() - 1);
    }
    let t = match result {
        ReadResultView::Empty => law_empty_means_unwritten(region, index, trace, run, result),
        ReadResultView::Torn => law_torn_means_collisions(
            region,
            index,
            trace,
            run,
            result,
            1,
        ).1,
        ReadResultView::Slot { .. } => law_reads_are_coherent(region, index, trace, run, result),
    };
    lemma_between(region, index, trace, a, t);
    lemma_between(region, index, trace, t, b);
}

/// Readers do not go back: of two reads one after the other, the second gives the same
/// write as the first or a later one.
pub proof fn law_reads_never_go_back(
    region: RegionView,
    index: u32,
    trace: Seq<Moment>,
    first: Seq<Glance>,
    first_result: ReadResultView,
    second: Seq<Glance>,
    second_result: ReadResultView,
) -> (r: (int, int))
    requires
        is_trace(region, index, trace),
        is_read(region, index, trace, first, first_result),
        is_read(region, index, trace, second, second_result),
        first.last().to <= second[0].from,
        within_a_round(
            trace[first[0].from].history().len(),
            trace[first.last().to].history().len(),
        ),
        within_a_round(
            trace[second[0].from].history().len(),
            trace[second.last().to].history().len(),
        ),
        first_result is Slot,
        second_result is Slot,
    ensures
        first[0].from <= r.0 <= r.1 <= second.last().to,
        trace[r.0].history().is_prefix_of(trace[r.1].history()),
        trace[r.0].history().len() > 0,
        first_result == (ReadResultView::Slot {
            bytes: trace[r.0].history().last().bytes,
            sequence: sequence_after(trace[r.0].history().len()) as u64,
            timestamp_nanos: trace[r.0].history().last().timestamp_nanos,
        }),
        second_result == (ReadResultView::Slot {
            bytes: trace[r.1].history().last().bytes,
            sequence: sequence_after(trace[r.1].history().len()) as u64,
            timestamp_nanos: trace[r.1].history().last().timestamp_nanos,
        }),
{
    let t = law_reads_are_coherent(region, index, trace, first, first_result);
    let u = law_reads_are_coherent(region, index, trace, second, second_result);
    lemma_between(region, index, trace, t, u);
    (t, u)
}

/// A writer that keeps to the protocol finds an even sequence: with one writer to the slot,
/// the sequence is even whenever that writer is about to begin a write.
pub proof fn law_lone_writer_finds_even(
    region: RegionView,
    index: u32,
    trace: Seq<Moment>,
    t: int,
)
    requires
        is_trace(region, index, trace),
        0 <= t < trace.len(),
        trace[t].writer is Idle,
    ensures
        sequence_of(region, index, trace[t].mem) % 2 == 0,
{
    lemma_trace(region, index, trace, t);
    lemma_sequence(trace[t].history().len());
}

/// Writers of other slots stay out of this one: nothing that a write to another slot does,
/// and nothing that one of its copies leaves half done, changes a byte of it. To this slot
/// and its readers they are somebody else at work outside of the slot.
pub proof fn law_other_writers_stay_out(
    region: RegionView,
    index: u32,
    other: u32,
    mem: Seq<u8>,
    what: Written,
    sequence: u64,
    k: int,
)
    requires
        write_of(region, other, what).wf(),
        index < region.slot_count,
        index != other,
        region.size() <= mem.len(),
        0 <= k < write_len(),
    ensures
        ({
            let op = write_of(region, other, what).ops(sequence, what.timestamp_nanos)[k];
            &&& same_slot(region, index, mem, memory::effect(region.order, mem, op))
            &&& op matches OpView::CopyIn { offset, bytes } ==> forall|new: Seq<u8>| #[trigger]
                partly_copied(mem, new, offset as int, bytes) ==> same_slot(
                    region,
                    index,
                    mem,
                    new,
                )
        }),
{
    broadcast use byte_order::lemma_int_bytes_len;

    region::lemma_slot(region, index);
    region::lemma_slot(region, other);
    if index < other {
        header::law_slots_are_disjoint(index, other, region.slot_size_bytes);
    } else {
        header::law_slots_are_disjoint(other, index, region.slot_size_bytes);
    }
}

/// Every write is counted once, whatever the order in which writers take their steps: the
/// region's count goes on by one with one operation of a write and stands still with the
/// others; its time of the last write is set by the last operation alone.
pub proof fn law_every_write_counts_once(
    region: RegionView,
    index: u32,
    mem: Seq<u8>,
    what: Written,
    sequence: u64,
    k: int,
)
    requires
        write_of(region, index, what).wf(),
        region.size() <= mem.len(),
        0 <= k < write_len(),
    ensures
        ({
            let op = write_of(region, index, what).ops(sequence, what.timestamp_nanos)[k];
            let new = memory::effect(region.order, mem, op);
            let count = memory::word(region.order, mem, header::WRITER_SEQ_OFFSET as int);
            &&& memory::word(region.order, new, header::WRITER_SEQ_OFFSET as int) == if k
                == published() {
                memory::successor(count)
            } else {
                count
            }
            &&& memory::word(region.order, new, header::LAST_UPDATE_NS_OFFSET as int) == if k
                == write_len() - 1 {
                what.timestamp_nanos as nat
            } else {
                memory::word(region.order, mem, header::LAST_UPDATE_NS_OFFSET as int)
            }
        }),
{
    broadcast use byte_order::lemma_int_bytes_len;

    region::lemma_slot(region, index);
    byte_order::lemma_int_counts();
    let order = region.order;
    let op = write_of(region, index, what).ops(sequence, what.timestamp_nanos)[k];
    let new = memory::effect(order, mem, op);
    let count = memory::successor(memory::word(order, mem, 40));
    byte_order::law_number_survives(order, count, 8);
    byte_order::law_number_survives(order, what.timestamp_nanos as nat, 8);
    if k == 7 {
        assert(new.subrange(40, 48) =~= byte_order::int_bytes(order, count, 8));
    } else {
        assert(new.subrange(40, 48) =~= mem.subrange(40, 48));
    }
    if k == 8 {
        assert(new.subrange(48, 56) =~= byte_order::int_bytes(
            order,
            what.timestamp_nanos as nat,
            8,
        ));
    } else {
        assert(new.subrange(48, 56) =~= mem.subrange(48, 56));
    }
}

/// One operation of some writer: number `k` of the write of `what` to slot `index`.
pub struct WriterStep {
    pub index: u32,
    pub what: Written,
    pub sequence: u64,
    pub k: int,
}

impl WriterStep {
    /// The operation.
    pub open spec fn op(self, region: RegionView) -> OpView {
        write_of(region, self.index, self.what).ops(
            self.sequence,
            self.what.timestamp_nanos,
        )[self.k]
    }

    /// Whether it is an operation of a write.
    pub open spec fn wf(self, region: RegionView) -> bool {
        write_of(region, self.index, self.what).wf() && 0 <= self.k < write_len()
    }
}

/// The region's bytes after several operations of any writers, in any order.
pub open spec fn after_steps(region: RegionView, mem: Seq<u8>, steps: Seq<WriterStep>) -> Seq<u8>
    decreases steps.len(),
{
    if steps.len() == 0 {
        mem
    } else {
        memory::effect(
            region.order,
            after_steps(region, mem, steps.drop_last()),
            steps.last().op(region),
        )
    }
}

/// How many of several operations are the one by which a write is counted. It comes right
/// behind the one that publishes the write.
pub open spec fn counted(steps: Seq<WriterStep>) -> nat
    decreases steps.len(),
{
    if steps.len() == 0 {
        0
    } else {
        counted(steps.drop_last()) + if steps.last().k == published() {
            1nat
        } else {
            0nat
        }
    }
}

/// The count is exact with any number of writers at work at once: whatever the order in
/// which their operations come, the region's count goes on by the number of writes that have
/// been counted (wrapping at 2^64), and none is lost.
pub proof fn law_no_count_is_lost(region: RegionView, mem: Seq<u8>, steps: Seq<WriterStep>)
    requires
        region.size() <= mem.len(),
        forall|i: int| 0 <= i < steps.len() ==> (#[trigger] steps[i]).wf(region),
    ensures
        after_steps(region, mem, steps).len() == mem.len(),
        memory::word(
            region.order,
            after_steps(region, mem, steps),
            header::WRITER_SEQ_OFFSET as int,
        ) == (memory::word(region.order, mem, header::WRITER_SEQ_OFFSET as int) + counted(steps))
            % 0x1_0000_0000_0000_0000,
    decreases steps.len(),
{
    region::lemma_offsets(region);
    if steps.len() == 0 {
        byte_order::lemma_value_fits(region.order, mem.subrange(40, 48));
    } else {
        let rest = steps.drop_last();
        assert forall|i: int| 0 <= i < rest.len() implies (#[trigger] rest[i]).wf(region) by {
            assert(rest[i] == steps[i]);
        }
        law_no_count_is_lost(region, mem, rest);
        let before = after_steps(region, mem, rest);
        let s = steps[steps.len() - 1];
        assert(s.wf(region));
        law_every_write_counts_once(region, s.index, before, s.what, s.sequence, s.k);
    }
}

} // verus!
