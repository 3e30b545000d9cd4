//! The snapshot table: a flat, seqlock-protected table of latest-value byte slots.
//!
//! A writer overwrites slot `index` in place; a reader polls slot `index` and converges to
//! the latest coherent bytes. There is no history. One writer per slot is the protocol
//! (distinct slots may be written by distinct threads or processes at once); readers are
//! lock-free and tolerate torn reads, by the per-slot seqlock with bounded retry.
//!
//! [`SlotWrite`] and [`SlotRead`] say what to do to the mapped bytes; whoever holds the
//! mapping does it.
use vstd::prelude::*;

use crate::byte_order;
use crate::byte_order::ByteOrder;
use crate::error::{ErrorView, TesseraSlateError};
use crate::header;
use crate::header::{LAST_UPDATE_NS_OFFSET, READ_RETRIES, WRITER_SEQ_OFFSET};
use crate::host::{HostOp, HostOpView, HostReply, HostReplyView};
use crate::memory;
use crate::memory::{AccessOrder, MemoryOp, MemoryReply, OpView, ReplyView};
use crate::namespace;
use crate::namespace::NamespaceHandle;
use crate::region;
use crate::region::{OpenPhase, OpenView, Region, RegionOpen, RegionView};

verus! {

/// Construction parameters for a writer-side [`Slate`].
#[derive(Clone, Debug)]
pub struct SlateConfig {
    /// Human-readable namespace; the region's name derives from it.
    pub description: String,
    /// Number of slots in the table.
    pub slot_count: u32,
    /// Payload capacity of one slot in bytes (a multiple of 8).
    pub slot_size_bytes: u32,
    /// Caller-defined layout hash; attachers and readers must supply the same value. Use
    /// `0` for "no schema".
    pub schema_hash: u64,
    /// Create the region (owner) or attach to an existing one.
    pub is_owner: bool,
    /// Owner-side recovery: unconditionally unlink an existing region of the same name
    /// first. Ignored on attach.
    pub force_recreate: bool,
}

impl SlateConfig {
    /// The digest that the region's name derives from.
    pub open spec fn digest(self) -> Seq<u8> {
        namespace::blake3_digest(vstd::utf8::encode_utf8(self.description@))
    }

    /// Why the configuration is refused before anything is done, if it is.
    pub open spec fn error(self) -> Option<ErrorView> {
        if self.is_owner {
            region::create_error(self.slot_count, self.slot_size_bytes)
        } else {
            region::geometry_error(self.slot_count, self.slot_size_bytes)
        }
    }

    /// The opening that the configuration asks for.
    pub open spec fn request(self, digest: Seq<u8>, order: ByteOrder) -> OpenView {
        OpenView {
            digest,
            slot_count: self.slot_count,
            slot_size_bytes: self.slot_size_bytes,
            schema_hash: self.schema_hash,
            order,
            phase: if self.is_owner {
                OpenPhase::Create { force_recreate: self.force_recreate }
            } else {
                OpenPhase::Attach
            },
        }
    }
}

/// Outcome of a read.
#[derive(Clone, Debug, PartialEq, Eq)]
pub enum ReadResult {
    /// The slot has never been written (`sequence == 0`).
    Empty,
    /// Every attempt collided with a write; keep the previous value and poll again later.
    Torn,
    /// A coherent snapshot of the slot.
    Slot {
        /// Payload bytes, of the length the writer wrote.
        bytes: Vec<u8>,
        /// The (even) seqlock value the bytes were read at.
        sequence: u64,
        /// Wall-clock nanoseconds of the write.
        timestamp_nanos: u64,
    },
}

/// [`ReadResult`] with its bytes as a sequence.
pub enum ReadResultView {
    Empty,
    Torn,
    Slot { bytes: Seq<u8>, sequence: u64, timestamp_nanos: u64 },
}

impl View for ReadResult {
    type V = ReadResultView;

    open spec fn view(&self) -> ReadResultView {
        match *self {
            ReadResult::Empty => ReadResultView::Empty,
            ReadResult::Torn => ReadResultView::Torn,
            ReadResult::Slot { bytes, sequence, timestamp_nanos } => ReadResultView::Slot {
                bytes: bytes@,
                sequence,
                timestamp_nanos,
            },
        }
    }
}

/// Snapshot of the region-global counters.
#[derive(Copy, Clone, Debug)]
pub struct HeaderSnapshot {
    /// Count of writes across all slots since creation.
    pub writer_seq: u64,
    /// Wall-clock nanoseconds of the most recent write to any slot.
    pub last_update_ns: u64,
}

/// Writer handle over a region.
pub struct Slate {
    region: Region,
}

impl View for Slate {
    type V = RegionView;

    closed spec fn view(&self) -> RegionView {
        self.region@
    }
}

impl Clone for Slate {
    fn clone(&self) -> (r: Slate)
        ensures
            r@ == self@,
    {
        proof {
            use_type_invariant(self);
        }
        Slate { region: self.region.clone() }
    }
}

/// Read-only handle over a region.
pub struct SlateReader {
    region: Region,
}

impl View for SlateReader {
    type V = RegionView;

    closed spec fn view(&self) -> RegionView {
        self.region@
    }
}

impl Clone for SlateReader {
    fn clone(&self) -> (r: SlateReader)
        ensures
            r@ == self@,
    {
        proof {
            use_type_invariant(self);
        }
        SlateReader { region: self.region.clone() }
    }
}

/// The views of several operations.
pub open spec fn op_views(ops: Seq<MemoryOp>) -> Seq<OpView> {
    ops.map_values(|op: MemoryOp| op@)
}

/// The sequence of a slot that is being written, where it was `sequence`: odd.
pub open spec fn marked_sequence(sequence: u64) -> u64 {
    (sequence + 1) as u64
}

/// The sequence of a slot that was written, where it was `sequence`: two higher. Zero is for
/// a slot that was never written, so the last even number below 2^64 is followed by two.
pub open spec fn published_sequence(sequence: u64) -> u64 {
    if sequence == 0xFFFF_FFFF_FFFF_FFFE {
        2
    } else {
        (sequence + 2) as u64
    }
}

/// A write that passed its checks: slot `index` of a region is to hold `bytes`.
pub struct SlotWrite<'a> {
    region: &'a Region,
    index: u32,
    bytes: Vec<u8>,
}

/// What a [`SlotWrite`] holds.
pub struct WriteView {
    pub region: RegionView,
    pub index: u32,
    pub bytes: Seq<u8>,
}

impl WriteView {
    /// What holds of every write: the slot exists and the bytes fit.
    pub open spec fn wf(self) -> bool {
        &&& self.region.wf()
        &&& self.index < self.region.slot_count
        &&& self.bytes.len() <= self.region.slot_size_bytes
    }

    /// Offset of the slot.
    pub open spec fn slot(self) -> usize {
        self.region.slot(self.index) as usize
    }

    /// The load that a write starts with.
    pub open spec fn load(self) -> OpView {
        OpView::Load { offset: self.slot(), ordering: AccessOrder::Relaxed }
    }

    /// The operations of a write, in order, where the load found `sequence`.
    pub open spec fn ops(self, sequence: u64, timestamp_nanos: u64) -> Seq<OpView> {
        seq![
            // odd: write in progress
            OpView::Store {
                offset: self.slot(),
                value: marked_sequence(sequence),
                ordering: AccessOrder::Relaxed,
            },
            OpView::Fence { ordering: AccessOrder::Release },
            OpView::CopyIn {
                offset: self.region.payload(self.index) as usize,
                bytes: self.bytes,
            },
            region::length_write(self.region, self.index, self.bytes.len() as u32),
            region::timestamp_write(self.region, self.index, timestamp_nanos),
            OpView::Fence { ordering: AccessOrder::Release },
            // even: published
            OpView::Store {
                offset: self.slot(),
                value: published_sequence(sequence),
                ordering: AccessOrder::Release,
            },
            OpView::Increment { offset: WRITER_SEQ_OFFSET, ordering: AccessOrder::AcqRel },
            OpView::Store {
                offset: LAST_UPDATE_NS_OFFSET,
                value: timestamp_nanos,
                ordering: AccessOrder::Release,
            },
        ]
    }
}

impl<'a> View for SlotWrite<'a> {
    type V = WriteView;

    closed spec fn view(&self) -> WriteView {
        WriteView { region: self.region@, index: self.index, bytes: self.bytes@ }
    }
}

impl<'a> SlotWrite<'a> {
    #[verifier::type_invariant]
    pub open spec fn wf(self) -> bool {
        self@.wf()
    }

    /// The load of the slot's sequence that the write starts with.
    pub fn load(&self) -> (r: MemoryOp)
        ensures
            r@ == self@.load(),
            memory::performable(r@, self@.region.size()),
    {
        proof {
            use_type_invariant(self);
            region::lemma_slot(self@.region, self@.index);
        }
        match self.region.slot_sequence_atomic(self.index) {
            Ok(offset) => MemoryOp::Load { offset, ordering: AccessOrder::Relaxed },
            Err(_) => MemoryOp::Fence { ordering: AccessOrder::Relaxed },
        }
    }

    /// The operations of the write, in order, where the load found `sequence`. A reader
    /// copies only `length` bytes, so what an earlier, longer payload left behind them does
    /// no harm.
    ///
    /// One writer per slot is the protocol: an odd `sequence` means that another writer is
    /// at work on the slot.
    pub fn publish(&self, sequence: u64, timestamp_nanos: u64) -> (r: Vec<MemoryOp>)
        requires
            sequence % 2 == 0,
        ensures
            op_views(r@) == self@.ops(sequence, timestamp_nanos),
            forall|i: int|
                0 <= i < r@.len() ==> memory::performable(
                    #[trigger] r@[i]@,
                    self@.region.size(),
                ),
    {
        proof {
            use_type_invariant(self);
            region::lemma_slot(self@.region, self@.index);
            region::lemma_offsets(self@.region);
        }
        let mut ops: Vec<MemoryOp> = Vec::new();
        let length: u32 = self.bytes.len() as u32;
        let published: u64 = if sequence == 0xFFFF_FFFF_FFFF_FFFE {
            2
        } else {
            sequence + 2
        };
        match (
            self.region.slot_sequence_atomic(self.index),
            self.region.slot_payload_ptr_mut(self.index),
            self.region.write_slot_meta(self.index, length, timestamp_nanos),
        ) {
            (Ok(slot), Ok(payload), Ok(meta)) => {
                let mut bytes: Vec<u8> = Vec::new();
                bytes.extend_from_slice(self.bytes.as_slice());
                assert(bytes@ =~= self.bytes@);
                ops.push(
                    MemoryOp::Store {
                        offset: slot,
                        value: sequence + 1,
                        ordering: AccessOrder::Relaxed,
                    },
                );
                ops.push(MemoryOp::Fence { ordering: AccessOrder::Release });
                ops.push(MemoryOp::CopyIn { offset: payload, bytes });
                ops.push(meta.0);
                ops.push(meta.1);
                ops.push(MemoryOp::Fence { ordering: AccessOrder::Release });
                ops.push(
                    MemoryOp::Store {
                        offset: slot,
                        value: published,
                        ordering: AccessOrder::Release,
                    },
                );
                ops.push(
                    MemoryOp::Increment {
                        offset: self.region.writer_seq_atomic(),
                        ordering: AccessOrder::AcqRel,
                    },
                );
                ops.push(
                    MemoryOp::Store {
                        offset: self.region.last_update_ns_atomic(),
                        value: timestamp_nanos,
                        ordering: AccessOrder::Release,
                    },
                );
            },
            _ => {},
        }
        assert(op_views(ops@) =~= self@.ops(sequence, timestamp_nanos));
        ops
    }
}

/// How far an attempt to read a slot has come.
#[derive(Debug)]
pub enum ReadPhase {
    /// What is the slot's sequence?
    Sequence,
    /// It was `sequence`, even and not zero. How long is the payload?
    Length { sequence: u64 },
    /// When was it written?
    Timestamp { sequence: u64, length: u32 },
    /// What are its bytes?
    Payload { sequence: u64, len: usize, timestamp_nanos: u64 },
    /// Order the copies before the second look at the sequence.
    Fence { sequence: u64, timestamp_nanos: u64, bytes: Vec<u8> },
    /// Is the sequence still the same?
    Recheck { sequence: u64, timestamp_nanos: u64, bytes: Vec<u8> },
}

/// [`ReadPhase`] with its bytes as a sequence.
pub enum ReadPhaseView {
    Sequence,
    Length { sequence: u64 },
    Timestamp { sequence: u64, length: u32 },
    Payload { sequence: u64, len: usize, timestamp_nanos: u64 },
    Fence { sequence: u64, timestamp_nanos: u64, bytes: Seq<u8> },
    Recheck { sequence: u64, timestamp_nanos: u64, bytes: Seq<u8> },
}

impl View for ReadPhase {
    type V = ReadPhaseView;

    open spec fn view(&self) -> ReadPhaseView {
        match *self {
            ReadPhase::Sequence => ReadPhaseView::Sequence,
            ReadPhase::Length { sequence } => ReadPhaseView::Length { sequence },
            ReadPhase::Timestamp { sequence, length } => ReadPhaseView::Timestamp {
                sequence,
                length,
            },
            ReadPhase::Payload { sequence, len, timestamp_nanos } => ReadPhaseView::Payload {
                sequence,
                len,
                timestamp_nanos,
            },
            ReadPhase::Fence { sequence, timestamp_nanos, bytes } => ReadPhaseView::Fence {
                sequence,
                timestamp_nanos,
                bytes: bytes@,
            },
            ReadPhase::Recheck { sequence, timestamp_nanos, bytes } => ReadPhaseView::Recheck {
                sequence,
                timestamp_nanos,
                bytes: bytes@,
            },
        }
    }
}

/// A read of slot `index` of a region: a state machine. Perform [`SlotRead::op`], hand the
/// reply to [`SlotRead::step`], and go on until it is finished.
pub struct SlotRead<'a> {
    region: &'a Region,
    index: u32,
    attempts: usize,
    phase: ReadPhase,
}

/// What a [`SlotRead`] holds.
pub struct ReadView {
    pub region: RegionView,
    pub index: u32,
    pub attempts: nat,
    pub phase: ReadPhaseView,
}

/// Where a step led.
pub enum ReadStep<'a> {
    /// There is more to do.
    Next(SlotRead<'a>),
    /// The read is over.
    Finished(ReadResult),
}

/// [`ReadStep`] by views.
pub enum ReadStepView {
    Next(ReadView),
    Finished(ReadResultView),
}

impl<'a> View for ReadStep<'a> {
    type V = ReadStepView;

    open spec fn view(&self) -> ReadStepView {
        match *self {
            ReadStep::Next(r) => ReadStepView::Next(r@),
            ReadStep::Finished(r) => ReadStepView::Finished(r@),
        }
    }
}

impl ReadView {
    /// What holds of every read: the slot exists, there are attempts left, and no copy
    /// reaches beyond the slot.
    pub open spec fn wf(self) -> bool {
        &&& self.region.wf()
        &&& self.index < self.region.slot_count
        &&& 0 < self.attempts <= READ_RETRIES
        &&& self.phase matches ReadPhaseView::Payload { len, .. } ==> len
            <= self.region.slot_size_bytes
    }

    /// The same read in another phase.
    pub open spec fn at(self, phase: ReadPhaseView) -> ReadView {
        ReadView { phase, ..self }
    }

    /// What has to be done now.
    pub open spec fn op(self) -> OpView {
        let slot = self.region.slot(self.index) as usize;
        match self.phase {
            ReadPhaseView::Sequence => OpView::Load {
                offset: slot,
                ordering: AccessOrder::Acquire,
            },
            ReadPhaseView::Length { .. } => region::length_read(self.region, self.index),
            ReadPhaseView::Timestamp { .. } => region::timestamp_read(self.region, self.index),
            ReadPhaseView::Payload { len, .. } => OpView::CopyOut {
                offset: self.region.payload(self.index) as usize,
                len,
            },
            ReadPhaseView::Fence { .. } => OpView::Fence { ordering: AccessOrder::Acquire },
            ReadPhaseView::Recheck { .. } => OpView::Load {
                offset: slot,
                ordering: AccessOrder::Relaxed,
            },
        }
    }

    /// Where a collision with a write leads: to the next attempt, if there is one.
    pub open spec fn retry(self) -> ReadStepView {
        if self.attempts > 1 {
            ReadStepView::Next(
                ReadView {
                    attempts: (self.attempts - 1) as nat,
                    phase: ReadPhaseView::Sequence,
                    ..self
                },
            )
        } else {
            ReadStepView::Finished(ReadResultView::Torn)
        }
    }

    /// Where the reply to [`ReadView::op`] leads. A `length` that was read while it was
    /// being written may be anything, so it is cut to the slot's capacity.
    pub open spec fn next(self, reply: ReplyView) -> ReadStepView {
        match (self.phase, reply) {
            (ReadPhaseView::Sequence, ReplyView::Value(sequence)) => if sequence == 0 {
                ReadStepView::Finished(ReadResultView::Empty)
            } else if sequence % 2 == 1 {
                self.retry()
            } else {
                ReadStepView::Next(self.at(ReadPhaseView::Length { sequence }))
            },
            (ReadPhaseView::Length { sequence }, ReplyView::Bytes(b)) => ReadStepView::Next(
                self.at(
                    ReadPhaseView::Timestamp {
                        sequence,
                        length: byte_order::int_value(self.region.order, b) as u32,
                    },
                ),
            ),
            (ReadPhaseView::Timestamp { sequence, length }, ReplyView::Bytes(b)) =>
                ReadStepView::Next(
                    self.at(
                        ReadPhaseView::Payload {
                            sequence,
                            len: if length <= self.region.slot_size_bytes {
                                length as usize
                            } else {
                                self.region.slot_size_bytes as usize
                            },
                            timestamp_nanos: byte_order::int_value(
                                self.region.order,
                                b,
                            ) as u64,
                        },
                    ),
                ),
            (ReadPhaseView::Payload { sequence, timestamp_nanos, .. }, ReplyView::Bytes(bytes)) =>
                ReadStepView::Next(
                    self.at(ReadPhaseView::Fence { sequence, timestamp_nanos, bytes }),
                ),
            (ReadPhaseView::Fence { sequence, timestamp_nanos, bytes }, ReplyView::Done) =>
                ReadStepView::Next(
                    self.at(ReadPhaseView::Recheck { sequence, timestamp_nanos, bytes }),
                ),
            (
                ReadPhaseView::Recheck { sequence, timestamp_nanos, bytes },
                ReplyView::Value(again),
            ) => if sequence == again {
                ReadStepView::Finished(
                    ReadResultView::Slot { bytes, sequence, timestamp_nanos },
                )
            } else {
                self.retry()
            },
            _ => ReadStepView::Next(self),
        }
    }
}

impl<'a> View for SlotRead<'a> {
    type V = ReadView;

    closed spec fn view(&self) -> ReadView {
        ReadView {
            region: self.region@,
            index: self.index,
            attempts: self.attempts as nat,
            phase: self.phase@,
        }
    }
}

impl<'a> SlotRead<'a> {
    #[verifier::type_invariant]
    pub open spec fn wf(self) -> bool {
        self@.wf()
    }

    /// What has to be done now. It stays inside the region, whatever was read before.
    pub fn op(&self) -> (r: MemoryOp)
        ensures
            r@ == self@.op(),
            memory::performable(r@, self@.region.size()),
    {
        proof {
            use_type_invariant(self);
            region::lemma_slot(self@.region, self@.index);
        }
        match (
            self.region.slot_sequence_atomic(self.index),
            self.region.read_slot_meta(self.index),
            self.region.slot_payload_ptr(self.index),
        ) {
            (Ok(slot), Ok(meta), Ok(payload)) => match &self.phase {
                ReadPhase::Sequence => MemoryOp::Load {
                    offset: slot,
                    ordering: AccessOrder::Acquire,
                },
                ReadPhase::Length { .. } => meta.0,
                ReadPhase::Timestamp { .. } => meta.1,
                ReadPhase::Payload { len, .. } => MemoryOp::CopyOut {
                    offset: payload,
                    len: *len,
                },
                ReadPhase::Fence { .. } => MemoryOp::Fence { ordering: AccessOrder::Acquire },
                ReadPhase::Recheck { .. } => MemoryOp::Load {
                    offset: slot,
                    ordering: AccessOrder::Relaxed,
                },
            },
            _ => MemoryOp::Fence { ordering: AccessOrder::Acquire },
        }
    }

    /// The next attempt, if there is one.
    fn retry(self) -> (r: ReadStep<'a>)
        ensures
            r@ == self@.retry(),
    {
        proof {
            use_type_invariant(&self);
        }
        if self.attempts > 1 {
            ReadStep::Next(
                SlotRead {
                    region: self.region,
                    index: self.index,
                    attempts: self.attempts - 1,
                    phase: ReadPhase::Sequence,
                },
            )
        } else {
            ReadStep::Finished(ReadResult::Torn)
        }
    }

    /// Where the reply to [`SlotRead::op`] leads.
    pub fn step(self, reply: MemoryReply) -> (r: ReadStep<'a>)
        requires
            memory::answers(self@.op(), reply@),
        ensures
            r@ == self@.next(reply@),
    {
        proof {
            use_type_invariant(&self);
        }
        let region = self.region;
        let index = self.index;
        let attempts = self.attempts;
        match (self.phase, reply) {
            (ReadPhase::Sequence, MemoryReply::Value(sequence)) => if sequence == 0 {
                ReadStep::Finished(ReadResult::Empty)
            } else if sequence % 2 == 1 {
                SlotRead { region, index, attempts, phase: ReadPhase::Sequence }.retry()
            } else {
                ReadStep::Next(
                    SlotRead {
                        region,
                        index,
                        attempts,
                        phase: ReadPhase::Length { sequence },
                    },
                )
            },
            (ReadPhase::Length { sequence }, MemoryReply::Bytes(b)) => {
                proof {
                    byte_order::lemma_value_fits_u32(region@.order, b@);
                }
                let length: u32 = region.byte_order().decode(b.as_slice()) as u32;
                ReadStep::Next(
                    SlotRead {
                        region,
                        index,
                        attempts,
                        phase: ReadPhase::Timestamp { sequence, length },
                    },
                )
            },
            (ReadPhase::Timestamp { sequence, length }, MemoryReply::Bytes(b)) => {
                let timestamp_nanos: u64 = region.byte_order().decode(b.as_slice());
                let capacity: u32 = region.slot_size_bytes();
                let len: usize = if length <= capacity {
                    length as usize
                } else {
                    capacity as usize
                };
                ReadStep::Next(
                    SlotRead {
                        region,
                        index,
                        attempts,
                        phase: ReadPhase::Payload { sequence, len, timestamp_nanos },
                    },
                )
            },
            (
                ReadPhase::Payload { sequence, timestamp_nanos, .. },
                MemoryReply::Bytes(bytes),
            ) => ReadStep::Next(
                SlotRead {
                    region,
                    index,
                    attempts,
                    phase: ReadPhase::Fence { sequence, timestamp_nanos, bytes },
                },
            ),
            (ReadPhase::Fence { sequence, timestamp_nanos, bytes }, MemoryReply::Done) =>
                ReadStep::Next(
                    SlotRead {
                        region,
                        index,
                        attempts,
                        phase: ReadPhase::Recheck { sequence, timestamp_nanos, bytes },
                    },
                ),
            (
                ReadPhase::Recheck { sequence, timestamp_nanos, bytes },
                MemoryReply::Value(again),
            ) => if sequence == again {
                ReadStep::Finished(ReadResult::Slot { bytes, sequence, timestamp_nanos })
            } else {
                SlotRead { region, index, attempts, phase: ReadPhase::Sequence }.retry()
            },
            (phase, _) => ReadStep::Next(SlotRead { region, index, attempts, phase }),
        }
    }
}

/// Why a write of `len` bytes to slot `index` is refused, if it is. Nothing is done to the
/// slot before both checks have passed, so a refused write never leaves it half-written.
pub open spec fn write_error(region: RegionView, index: u32, len: nat) -> Option<ErrorView> {
    if len > region.slot_size_bytes {
        Some(
            ErrorView::OversizedPayload {
                len: len as usize,
                capacity: region.slot_size_bytes as usize,
            },
        )
    } else {
        region.index_error(index)
    }
}

/// Why the name of a region with other live handles, or with none, may not be removed, if
/// so.
pub open spec fn slate_unlink_error(region: RegionView, sole_handle: bool) -> Option<ErrorView> {
    if !sole_handle {
        Some(
            ErrorView::Region(
                "cannot unlink while other handles to this Slate region are alive"@,
            ),
        )
    } else {
        region.unlink_error()
    }
}

impl Slate {
    #[verifier::type_invariant]
    pub open spec fn wf(self) -> bool {
        self@.wf()
    }

    /// Start to open a table as owner (create) or attacher (attach), per
    /// `config.is_owner`, in this machine's byte order.
    pub fn open(config: SlateConfig) -> (r: Result<RegionOpen, TesseraSlateError>)
        ensures
            match r {
                Ok(o) => {
                    &&& config.error() is None
                    &&& o@.wf()
                    &&& o@ == config.request(config.digest(), byte_order::native_order())
                    &&& o@ == OpenView {
                        digest: namespace::blake3_digest(
                            vstd::utf8::encode_utf8(config.description@),
                        ),
                        slot_count: config.slot_count,
                        slot_size_bytes: config.slot_size_bytes,
                        schema_hash: config.schema_hash,
                        order: byte_order::native_order(),
                        phase: if config.is_owner {
                            OpenPhase::Create { force_recreate: config.force_recreate }
                        } else {
                            OpenPhase::Attach
                        },
                    }
                },
                Err(e) => config.error() == Some(e@) && e@ is Config,
            },
            r is Ok <==> {
                &&& config.slot_count > 0
                &&& config.slot_size_bytes > 0
                &&& config.slot_size_bytes % 8 == 0
                &&& config.is_owner ==> 128 + config.slot_count * (32 + config.slot_size_bytes)
                    <= usize::MAX
            },
    {
        let handle = NamespaceHandle::derive(config.description.as_str());
        Slate::open_in(config, &handle, ByteOrder::native())
    }

    /// Start to open the table of a handle in the given byte order.
    pub fn open_in(config: SlateConfig, handle: &NamespaceHandle, order: ByteOrder) -> (r: Result<
        RegionOpen,
        TesseraSlateError,
    >)
        ensures
            match r {
                Ok(o) => {
                    &&& config.error() is None
                    &&& o@.wf()
                    &&& o@ == config.request(handle.digest(), order)
                    &&& o@ == OpenView {
                        digest: handle.digest(),
                        slot_count: config.slot_count,
                        slot_size_bytes: config.slot_size_bytes,
                        schema_hash: config.schema_hash,
                        order,
                        phase: if config.is_owner {
                            OpenPhase::Create { force_recreate: config.force_recreate }
                        } else {
                            OpenPhase::Attach
                        },
                    }
                },
                Err(e) => config.error() == Some(e@) && e@ is Config,
            },
            r is Ok <==> {
                &&& config.slot_count > 0
                &&& config.slot_size_bytes > 0
                &&& config.slot_size_bytes % 8 == 0
                &&& config.is_owner ==> 128 + config.slot_count * (32 + config.slot_size_bytes)
                    <= usize::MAX
            },
    {
        if config.is_owner {
            Region::create(
                handle,
                config.slot_count,
                config.slot_size_bytes,
                config.schema_hash,
                config.force_recreate,
                order,
            )
        } else {
            Region::attach(
                handle,
                config.slot_count,
                config.slot_size_bytes,
                config.schema_hash,
                order,
            )
        }
    }

    /// The table of an open region.
    pub fn over(region: Region) -> (r: Slate)
        ensures
            r@ == region@,
            r@.wf(),
    {
        proof {
            use_type_invariant(&region);
        }
        Slate { region }
    }

    /// Whether this handle created the region.
    pub fn is_owner(&self) -> (r: bool)
        ensures
            r == self@.is_owner,
    {
        self.region.is_owner()
    }

    /// Configured slot count.
    pub fn slot_count(&self) -> (r: u32)
        ensures
            r == self@.slot_count,
    {
        self.region.slot_count()
    }

    /// Configured payload capacity of one slot in bytes.
    pub fn slot_size_bytes(&self) -> (r: u32)
        ensures
            r == self@.slot_size_bytes,
    {
        self.region.slot_size_bytes()
    }

    /// Start to overwrite slot `index` with `bytes` (at most `slot_size_bytes`).
    ///
    /// One writer per slot: distinct slots may be written at once by distinct threads or
    /// processes, but two writers on the *same* slot break the protocol.
    pub fn write_slot(&self, index: u32, bytes: &[u8]) -> (r: Result<
        SlotWrite<'_>,
        TesseraSlateError,
    >)
        ensures
            match r {
                Ok(w) => {
                    &&& write_error(self@, index, bytes@.len()) is None
                    &&& w@.wf()
                    &&& w@ == WriteView { region: self@, index, bytes: bytes@ }
                },
                Err(e) => {
                    &&& write_error(self@, index, bytes@.len()) == Some(e@)
                    &&& e@ == if bytes@.len() > self@.slot_size_bytes {
                        ErrorView::OversizedPayload {
                            len: bytes.len(),
                            capacity: self@.slot_size_bytes as usize,
                        }
                    } else {
                        ErrorView::SlotIndexOutOfRange { index, slot_count: self@.slot_count }
                    }
                },
            },
            r is Ok <==> index < self@.slot_count && bytes@.len() <= self@.slot_size_bytes,
    {
        let capacity: usize = self.region.slot_size_bytes() as usize;
        if bytes.len() > capacity {
            return Err(TesseraSlateError::OversizedPayload { len: bytes.len(), capacity });
        }
        match self.region.slot_sequence_atomic(index) {
            Ok(_) => {
                let mut copy: Vec<u8> = Vec::new();
                copy.extend_from_slice(bytes);
                assert(copy@ =~= bytes@);
                proof {
                    use_type_invariant(&self.region);
                }
                Ok(SlotWrite { region: &self.region, index, bytes: copy })
            },
            Err(e) => Err(e),
        }
    }

    /// A reader of the same region.
    pub fn reader(&self) -> (r: SlateReader)
        ensures
            r@ == self@,
            r@.wf(),
    {
        proof {
            use_type_invariant(self);
        }
        SlateReader { region: self.region.clone() }
    }

    /// Removal of the region's name (owner only): what has to be done for it, if anything.
    ///
    /// `sole_handle` says whether this is the only live handle to the region; with others
    /// alive the removal is refused. Dropping the owner's mapping removes the name too, so
    /// this is only for early clean-up.
    pub fn unlink(&self, sole_handle: bool) -> (r: Result<Option<HostOp>, TesseraSlateError>)
        ensures
            match r {
                Ok(op) => {
                    &&& slate_unlink_error(self@, sole_handle) is None
                    &&& self@.is_owner
                    &&& op is None <==> self@.manually_unlinked
                    &&& op matches Some(op) ==> op@ == (HostOpView::Unlink {
                        name: self@.shm_name,
                    })
                },
                Err(e) => slate_unlink_error(self@, sole_handle) == Some(e@) && e@ is Region,
            },
            r is Ok <==> sole_handle && self@.is_owner,
    {
        if !sole_handle {
            return Err(
                TesseraSlateError::Region(
                    "cannot unlink while other handles to this Slate region are alive".to_string(),
                ),
            );
        }
        self.region.unlink()
    }

    /// Whether dropping the mapping has to remove the region's name.
    pub fn removes_name_on_drop(&self) -> (r: bool)
        ensures
            r == self@.removes_name_on_drop(),
    {
        self.region.removes_name_on_drop()
    }

    /// Takes note of what the removal of the name by its owner gave.
    pub fn unlinked(&mut self, reply: HostReply) -> (r: Result<(), TesseraSlateError>)
        requires
            old(self)@.is_owner,
            reply@ is Done || reply@ is Refused,
        ensures
            match r {
                Ok(_) => {
                    &&& old(self)@.unlink_failure(reply@) is None
                    &&& final(self)@ == RegionView { manually_unlinked: true, ..old(self)@ }
                },
                Err(e) => {
                    &&& old(self)@.unlink_failure(reply@) == Some(e@)
                    &&& final(self)@ == old(self)@
                },
            },
            r is Err <==> (reply@ matches HostReplyView::Refused { reason, .. } && !(
            reason is NotFound)),
    {
        let mut region = self.region.clone();
        let r = region.unlinked(reply);
        proof {
            use_type_invariant(&region);
        }
        self.region = region;
        r
    }
}

impl SlateReader {
    #[verifier::type_invariant]
    pub open spec fn wf(self) -> bool {
        self@.wf()
    }

    /// Start to attach to an existing table for reading, in this machine's byte order.
    /// `slot_count`, `slot_size_bytes` and `schema_hash` must match the creator's.
    pub fn open(
        description: &str,
        slot_count: u32,
        slot_size_bytes: u32,
        schema_hash: u64,
    ) -> (r: Result<RegionOpen, TesseraSlateError>)
        ensures
            match r {
                Ok(o) => {
                    &&& region::geometry_error(slot_count, slot_size_bytes) is None
                    &&& o@.wf()
                    &&& o@ == OpenView {
                        digest: namespace::blake3_digest(vstd::utf8::encode_utf8(description@)),
                        slot_count,
                        slot_size_bytes,
                        schema_hash,
                        order: byte_order::native_order(),
                        phase: OpenPhase::Attach,
                    }
                },
                Err(e) => {
                    &&& region::geometry_error(slot_count, slot_size_bytes) == Some(e@)
                    &&& e@ is Config
                },
            },
            r is Ok <==> slot_count > 0 && slot_size_bytes > 0 && slot_size_bytes % 8 == 0,
    {
        let handle = NamespaceHandle::derive(description);
        Region::attach(&handle, slot_count, slot_size_bytes, schema_hash, ByteOrder::native())
    }

    /// The reader of an open region.
    pub fn over(region: Region) -> (r: SlateReader)
        ensures
            r@ == region@,
            r@.wf(),
    {
        proof {
            use_type_invariant(&region);
        }
        SlateReader { region }
    }

    /// Configured slot count.
    pub fn slot_count(&self) -> (r: u32)
        ensures
            r == self@.slot_count,
    {
        self.region.slot_count()
    }

    /// Configured payload capacity of one slot in bytes.
    pub fn slot_size_bytes(&self) -> (r: u32)
        ensures
            r == self@.slot_size_bytes,
    {
        self.region.slot_size_bytes()
    }

    /// The two loads that give a [`HeaderSnapshot`]: the count of writes, then the time of
    /// the last one.
    pub fn header(&self) -> (r: (MemoryOp, MemoryOp))
        ensures
            r.0@ == (OpView::Load { offset: WRITER_SEQ_OFFSET, ordering: AccessOrder::Acquire }),
            r.1@ == (OpView::Load {
                offset: LAST_UPDATE_NS_OFFSET,
                ordering: AccessOrder::Acquire,
            }),
            memory::performable(r.0@, self@.size()),
            memory::performable(r.1@, self@.size()),
    {
        (
            MemoryOp::Load {
                offset: self.region.writer_seq_atomic(),
                ordering: AccessOrder::Acquire,
            },
            MemoryOp::Load {
                offset: self.region.last_update_ns_atomic(),
                ordering: AccessOrder::Acquire,
            },
        )
    }

    /// The counters, from what the two loads of [`SlateReader::header`] found, in their
    /// order.
    pub fn header_snapshot(&self, first: u64, second: u64) -> (r: HeaderSnapshot)
        ensures
            r.writer_seq == first,
            r.last_update_ns == second,
    {
        HeaderSnapshot { writer_seq: first, last_update_ns: second }
    }

    /// Start to read the latest coherent snapshot of slot `index` with bounded seqlock
    /// retry.
    pub fn read_slot(&self, index: u32) -> (r: Result<SlotRead<'_>, TesseraSlateError>)
        ensures
            match r {
                Ok(read) => {
                    &&& self@.index_error(index) is None
                    &&& read@.wf()
                    &&& read@ == ReadView {
                        region: self@,
                        index,
                        attempts: READ_RETRIES as nat,
                        phase: ReadPhaseView::Sequence,
                    }
                },
                Err(e) => {
                    &&& self@.index_error(index) == Some(e@)
                    &&& e@ == (ErrorView::SlotIndexOutOfRange {
                        index,
                        slot_count: self@.slot_count,
                    })
                },
            },
            r is Ok <==> index < self@.slot_count,
    {
        match self.region.slot_sequence_atomic(index) {
            Ok(_) => {
                proof {
                    use_type_invariant(&self.region);
                }
                Ok(
                    SlotRead {
                        region: &self.region,
                        index,
                        attempts: READ_RETRIES,
                        phase: ReadPhase::Sequence,
                    },
                )
            },
            Err(e) => Err(e),
        }
    }
}

/// A write marks its slot odd and leaves it with the next even number; zero, which is for a
/// slot that was never written, is never left.
pub proof fn law_sequences_tell_the_state(sequence: u64)
    requires
        sequence % 2 == 0,
    ensures
        marked_sequence(sequence) == sequence + 1,
        marked_sequence(sequence) % 2 == 1,
        published_sequence(sequence) % 2 == 0,
        published_sequence(sequence) != 0,
        sequence + 2 <= u64::MAX ==> published_sequence(sequence) == sequence + 2,
{
}

} // verus!
