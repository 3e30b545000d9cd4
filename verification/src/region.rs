//! Region lifecycle: create, attach, unlink, and where the parts of a region stand.
//!
//! Layout is per [`crate::header`]: a `GlobalHeader` at offset 0, then a dense array of
//! slots, each a `SlotHeader` followed by `slot_size_bytes` of opaque payload. This module
//! decides; the mapping itself is held by the caller, who performs one [`HostOp`] at a time
//! and hands the [`HostReply`] back.
use vstd::prelude::*;

use crate::byte_order;
use crate::byte_order::ByteOrder;
use crate::clock;
use crate::clock::current_epoch_micros;
use crate::error::{ErrorView, TesseraSlateError};
use crate::header;
use crate::header::{
    region_size_bytes, slot_offset, GlobalHeader, HeaderView, SlotHeader, FORMAT_VERSION,
    LAST_UPDATE_NS_OFFSET, MAGIC, SLOT_LENGTH_OFFSET, SLOT_SEQUENCE_OFFSET, SLOT_TIMESTAMP_OFFSET,
    WRITER_SEQ_OFFSET,
};
use crate::host;
use crate::host::{HostOp, HostOpView, HostReply, HostReplyView, Refusal};
use crate::memory;
use crate::memory::{MemoryOp, MemoryReply, OpView, ReplyView};
use crate::namespace;
use crate::namespace::NamespaceHandle;
use crate::text;
use crate::text::{push_decimal, push_hexadecimal};

verus! {

/// Why a geometry is refused, if it is.
pub open spec fn geometry_error(slot_count: u32, slot_size_bytes: u32) -> Option<ErrorView> {
    if slot_count == 0 {
        Some(ErrorView::Config("slot_count must be > 0"@))
    } else if slot_size_bytes == 0 {
        Some(ErrorView::Config("slot_size_bytes must be > 0"@))
    } else if slot_size_bytes % 8 != 0 {
        Some(
            ErrorView::Config(
                "slot_size_bytes="@ + text::decimal(slot_size_bytes as nat)
                    + " must be a multiple of 8 so successive slot starts stay 8-byte-aligned for the AtomicU64 seqlock view (round up to "@
                    + text::decimal((slot_size_bytes + 8 - slot_size_bytes % 8) as nat) + ")"@,
            ),
        )
    } else {
        None
    }
}

/// Refuses a geometry without slots, without payload, or whose slots would not start at
/// multiples of 8, where their `sequence` counters have to stand.
pub fn validate_geometry(slot_count: u32, slot_size_bytes: u32) -> (r: Result<
    (),
    TesseraSlateError,
>)
    ensures
        match r {
            Ok(_) => geometry_error(slot_count, slot_size_bytes) is None,
            Err(e) => geometry_error(slot_count, slot_size_bytes) == Some(e@) && e@ is Config,
        },
        r is Ok <==> slot_count > 0 && slot_size_bytes > 0 && slot_size_bytes % 8 == 0,
{
    if slot_count == 0 {
        return Err(TesseraSlateError::Config("slot_count must be > 0".to_string()));
    }
    if slot_size_bytes == 0 {
        return Err(TesseraSlateError::Config("slot_size_bytes must be > 0".to_string()));
    }
    if slot_size_bytes % 8 != 0 {
        let mut m: String = "slot_size_bytes=".to_string();
        push_decimal(&mut m, slot_size_bytes as u64);
        m.append(
            " must be a multiple of 8 so successive slot starts stay 8-byte-aligned for the AtomicU64 seqlock view (round up to ",
        );
        push_decimal(&mut m, slot_size_bytes as u64 + 8 - (slot_size_bytes % 8) as u64);
        m.append(")");
        return Err(TesseraSlateError::Config(m));
    }
    Ok(())
}

/// One mapped region, without the mapping: its geometry, its name, and whether this side
/// created it.
pub struct Region {
    slot_count: u32,
    slot_size_bytes: u32,
    schema_hash: u64,
    order: ByteOrder,
    shm_name: String,
    is_owner: bool,
    manually_unlinked: bool,
}

/// What a [`Region`] holds.
pub struct RegionView {
    pub slot_count: u32,
    pub slot_size_bytes: u32,
    pub schema_hash: u64,
    pub order: ByteOrder,
    pub shm_name: Seq<char>,
    pub is_owner: bool,
    pub manually_unlinked: bool,
}

impl RegionView {
    /// What holds of every region: its geometry is valid, its size can be addressed, and
    /// only its owner has removed its name.
    pub open spec fn wf(self) -> bool {
        &&& geometry_error(self.slot_count, self.slot_size_bytes) is None
        &&& header::region_fits(self.slot_count, self.slot_size_bytes)
        &&& self.manually_unlinked ==> self.is_owner
    }

    /// The region's size in bytes.
    pub open spec fn size(self) -> nat {
        header::region_size(self.slot_count, self.slot_size_bytes)
    }

    /// Offset of slot `index`.
    pub open spec fn slot(self, index: u32) -> nat {
        header::slot_start(index, self.slot_size_bytes)
    }

    /// Offset of the payload of slot `index`.
    pub open spec fn payload(self, index: u32) -> nat {
        header::payload_start(index, self.slot_size_bytes)
    }

    /// Why a slot index is refused, if it is.
    pub open spec fn index_error(self, index: u32) -> Option<ErrorView> {
        if index >= self.slot_count {
            Some(ErrorView::SlotIndexOutOfRange { index, slot_count: self.slot_count })
        } else {
            None
        }
    }

    /// Why the region's name may not be removed, if so.
    pub open spec fn unlink_error(self) -> Option<ErrorView> {
        if !self.manually_unlinked && !self.is_owner {
            Some(
                ErrorView::Region(
                    "Region::unlink called by an attacher (is_owner=false). Only the creator may unlink the shared-memory name; drop this Region to release the mapping."@,
                ),
            )
        } else {
            None
        }
    }

    /// Whether dropping the mapping removes the region's name.
    pub open spec fn removes_name_on_drop(self) -> bool {
        self.is_owner && !self.manually_unlinked
    }

    /// Why the removal of the region's name counts as failed, if so. A name that was
    /// already gone is as good as removed.
    pub open spec fn unlink_failure(self, reply: HostReplyView) -> Option<ErrorView> {
        match reply {
            HostReplyView::Refused { reason, message } => if reason is NotFound {
                None
            } else {
                Some(
                    ErrorView::Region(
                        "shm_unlink('"@ + self.shm_name + "') failed: "@ + message,
                    ),
                )
            },
            _ => None,
        }
    }
}

/// The write of a slot's `length`.
pub open spec fn length_write(region: RegionView, index: u32, length: u32) -> OpView {
    OpView::CopyIn {
        offset: (region.slot(index) + SLOT_LENGTH_OFFSET) as usize,
        bytes: byte_order::int_bytes(region.order, length as nat, 4),
    }
}

/// The write of a slot's `timestamp_nanos`.
pub open spec fn timestamp_write(region: RegionView, index: u32, timestamp_nanos: u64) -> OpView {
    OpView::CopyIn {
        offset: (region.slot(index) + SLOT_TIMESTAMP_OFFSET) as usize,
        bytes: byte_order::int_bytes(region.order, timestamp_nanos as nat, 8),
    }
}

/// The read of a slot's `length`.
pub open spec fn length_read(region: RegionView, index: u32) -> OpView {
    OpView::CopyOut { offset: (region.slot(index) + SLOT_LENGTH_OFFSET) as usize, len: 4 }
}

/// The read of a slot's `timestamp_nanos`.
pub open spec fn timestamp_read(region: RegionView, index: u32) -> OpView {
    OpView::CopyOut { offset: (region.slot(index) + SLOT_TIMESTAMP_OFFSET) as usize, len: 8 }
}

/// Every region holds a whole global header.
pub proof fn lemma_offsets(region: RegionView)
    ensures
        GlobalHeader::SIZE <= region.size(),
{
    vstd::arithmetic::mul::lemma_mul_nonnegative(
        region.slot_count as int,
        header::stride(region.slot_size_bytes) as int,
    );
}

/// Every slot of a region is 8-aligned and lies inside it.
pub proof fn lemma_slot(region: RegionView, index: u32)
    requires
        region.wf(),
        index < region.slot_count,
    ensures
        region.slot(index) % 8 == 0,
        GlobalHeader::SIZE <= region.slot(index),
        region.slot(index) + header::stride(region.slot_size_bytes) <= region.size()
            <= usize::MAX,
{
    header::law_slots_are_aligned(index, region.slot_size_bytes);
    header::law_slots_are_inside(index, region.slot_count, region.slot_size_bytes);
}

impl View for Region {
    type V = RegionView;

    closed spec fn view(&self) -> RegionView {
        RegionView {
            slot_count: self.slot_count,
            slot_size_bytes: self.slot_size_bytes,
            schema_hash: self.schema_hash,
            order: self.order,
            shm_name: self.shm_name@,
            is_owner: self.is_owner,
            manually_unlinked: self.manually_unlinked,
        }
    }
}

impl Clone for Region {
    fn clone(&self) -> (r: Region)
        ensures
            r@ == self@,
    {
        proof {
            use_type_invariant(self);
        }
        Region {
            slot_count: self.slot_count,
            slot_size_bytes: self.slot_size_bytes,
            schema_hash: self.schema_hash,
            order: self.order,
            shm_name: self.shm_name.clone(),
            is_owner: self.is_owner,
            manually_unlinked: self.manually_unlinked,
        }
    }
}

impl Region {
    #[verifier::type_invariant]
    pub open spec fn wf(self) -> bool {
        self@.wf()
    }

    /// Whether this region was created (owner) or attached.
    pub fn is_owner(&self) -> (r: bool)
        ensures
            r == self@.is_owner,
    {
        self.is_owner
    }

    /// Configured slot count.
    pub fn slot_count(&self) -> (r: u32)
        ensures
            r == self@.slot_count,
    {
        self.slot_count
    }

    /// Configured payload size of one slot in bytes.
    pub fn slot_size_bytes(&self) -> (r: u32)
        ensures
            r == self@.slot_size_bytes,
    {
        self.slot_size_bytes
    }

    /// Schema hash that the caller supplied.
    pub fn schema_hash(&self) -> (r: u64)
        ensures
            r == self@.schema_hash,
    {
        self.schema_hash
    }

    /// Byte order of the region's numeric fields.
    pub fn byte_order(&self) -> (r: ByteOrder)
        ensures
            r == self@.order,
    {
        self.order
    }

    /// The copy that fetches the region's global header.
    pub fn read_global_header(&self) -> (r: MemoryOp)
        ensures
            r@ == (OpView::CopyOut { offset: 0, len: GlobalHeader::SIZE }),
            memory::performable(r@, self@.size()),
    {
        proof {
            use_type_invariant(self);
            lemma_offsets(self@);
        }
        MemoryOp::CopyOut { offset: 0, len: GlobalHeader::SIZE }
    }

    /// Microseconds since the UNIX epoch at creation, from the bytes of the global header.
    pub fn epoch_micros(&self, header: &[u8]) -> (r: u64)
        requires
            header@.len() == GlobalHeader::SIZE,
        ensures
            r == byte_order::int_value(self@.order, header::field(header@, 16, 8)),
    {
        let h = GlobalHeader::from_bytes(self.order, header);
        proof {
            header::lemma_fields(h@, self@.order);
        }
        h.epoch_micros
    }

    /// Refuses an index outside `0..slot_count`.
    fn check_slot_index(&self, index: u32) -> (r: Result<(), TesseraSlateError>)
        ensures
            match r {
                Ok(_) => self@.index_error(index) is None,
                Err(e) => {
                    &&& self@.index_error(index) == Some(e@)
                    &&& e@ == (ErrorView::SlotIndexOutOfRange {
                        index,
                        slot_count: self@.slot_count,
                    })
                },
            },
            r is Ok <==> index < self@.slot_count,
    {
        if index >= self.slot_count {
            return Err(
                TesseraSlateError::SlotIndexOutOfRange { index, slot_count: self.slot_count },
            );
        }
        Ok(())
    }

    /// Offset of slot `index`.
    fn slot_base(&self, index: u32) -> (r: usize)
        requires
            self@.index_error(index) is None,
        ensures
            r == self@.slot(index),
            r == 128 + index * (32 + self@.slot_size_bytes),
            r % 8 == 0,
            r + header::stride(self@.slot_size_bytes) <= self@.size() <= usize::MAX,
    {
        proof {
            use_type_invariant(self);
            lemma_slot(self@, index);
        }
        slot_offset(index, self.slot_size_bytes)
    }

    /// Where the region's `writer_seq` counter stands.
    pub fn writer_seq_atomic(&self) -> (r: usize)
        ensures
            r == WRITER_SEQ_OFFSET,
            r % 8 == 0,
            r + 8 <= self@.size(),
    {
        proof {
            use_type_invariant(self);
            lemma_offsets(self@);
        }
        WRITER_SEQ_OFFSET
    }

    /// Where the region's `last_update_ns` stamp stands.
    pub fn last_update_ns_atomic(&self) -> (r: usize)
        ensures
            r == LAST_UPDATE_NS_OFFSET,
            r % 8 == 0,
            r + 8 <= self@.size(),
    {
        proof {
            use_type_invariant(self);
            lemma_offsets(self@);
        }
        LAST_UPDATE_NS_OFFSET
    }

    /// Where a slot's seqlock `sequence` counter stands: 8-aligned, inside the region.
    pub fn slot_sequence_atomic(&self, index: u32) -> (r: Result<usize, TesseraSlateError>)
        ensures
            match r {
                Ok(offset) => {
                    &&& self@.index_error(index) is None
                    &&& offset == self@.slot(index) + SLOT_SEQUENCE_OFFSET
                    &&& offset == 128 + index * (32 + self@.slot_size_bytes)
                    &&& offset % 8 == 0
                    &&& offset + 8 <= self@.size()
                },
                Err(e) => self@.index_error(index) == Some(e@),
            },
            r is Ok <==> index < self@.slot_count,
    {
        match self.check_slot_index(index) {
            Ok(_) => Ok(self.slot_base(index) + SLOT_SEQUENCE_OFFSET),
            Err(e) => Err(e),
        }
    }

    /// Where a slot's payload stands, for its writer: `slot_size_bytes` from there on lie
    /// inside the region. The writer must hold the slot's sequence odd while it copies.
    pub fn slot_payload_ptr_mut(&self, index: u32) -> (r: Result<usize, TesseraSlateError>)
        ensures
            match r {
                Ok(offset) => {
                    &&& self@.index_error(index) is None
                    &&& offset == self@.payload(index)
                    &&& offset == 128 + index * (32 + self@.slot_size_bytes) + 32
                    &&& offset + self@.slot_size_bytes <= self@.size()
                },
                Err(e) => self@.index_error(index) == Some(e@),
            },
            r is Ok <==> index < self@.slot_count,
    {
        match self.check_slot_index(index) {
            Ok(_) => Ok(self.slot_base(index) + SlotHeader::SIZE),
            Err(e) => Err(e),
        }
    }

    /// Where a slot's payload stands, for a reader: `slot_size_bytes` from there on lie
    /// inside the region. The reader must check the slot's sequence before and after.
    pub fn slot_payload_ptr(&self, index: u32) -> (r: Result<usize, TesseraSlateError>)
        ensures
            match r {
                Ok(offset) => {
                    &&& self@.index_error(index) is None
                    &&& offset == self@.payload(index)
                    &&& offset == 128 + index * (32 + self@.slot_size_bytes) + 32
                    &&& offset + self@.slot_size_bytes <= self@.size()
                },
                Err(e) => self@.index_error(index) == Some(e@),
            },
            r is Ok <==> index < self@.slot_count,
    {
        self.slot_payload_ptr_mut(index)
    }

    /// The two copies that write a slot's `length` and `timestamp_nanos`, in that order.
    /// The writer must hold the slot's sequence odd while it performs them.
    pub fn write_slot_meta(&self, index: u32, length: u32, timestamp_nanos: u64) -> (r: Result<
        (MemoryOp, MemoryOp),
        TesseraSlateError,
    >)
        ensures
            match r {
                Ok(ops) => {
                    &&& self@.index_error(index) is None
                    &&& ops.0@ == length_write(self@, index, length)
                    &&& ops.1@ == timestamp_write(self@, index, timestamp_nanos)
                    &&& memory::performable(ops.0@, self@.size())
                    &&& memory::performable(ops.1@, self@.size())
                },
                Err(e) => self@.index_error(index) == Some(e@),
            },
            r is Ok <==> index < self@.slot_count,
    {
        broadcast use byte_order::lemma_int_bytes_len;

        match self.check_slot_index(index) {
            Ok(_) => {
                let base: usize = self.slot_base(index);
                Ok(
                    (
                        MemoryOp::CopyIn {
                            offset: base + SLOT_LENGTH_OFFSET,
                            bytes: self.order.encode(length as u64, 4),
                        },
                        MemoryOp::CopyIn {
                            offset: base + SLOT_TIMESTAMP_OFFSET,
                            bytes: self.order.encode(timestamp_nanos, 8),
                        },
                    ),
                )
            },
            Err(e) => Err(e),
        }
    }

    /// The two copies that fetch the bytes of a slot's `length` and `timestamp_nanos`, in
    /// that order. The reader must check the slot's sequence before and after.
    pub fn read_slot_meta(&self, index: u32) -> (r: Result<
        (MemoryOp, MemoryOp),
        TesseraSlateError,
    >)
        ensures
            match r {
                Ok(ops) => {
                    &&& self@.index_error(index) is None
                    &&& ops.0@ == length_read(self@, index)
                    &&& ops.1@ == timestamp_read(self@, index)
                    &&& memory::performable(ops.0@, self@.size())
                    &&& memory::performable(ops.1@, self@.size())
                },
                Err(e) => self@.index_error(index) == Some(e@),
            },
            r is Ok <==> index < self@.slot_count,
    {
        match self.check_slot_index(index) {
            Ok(_) => {
                let base: usize = self.slot_base(index);
                Ok(
                    (
                        MemoryOp::CopyOut { offset: base + SLOT_LENGTH_OFFSET, len: 4 },
                        MemoryOp::CopyOut { offset: base + SLOT_TIMESTAMP_OFFSET, len: 8 },
                    ),
                )
            },
            Err(e) => Err(e),
        }
    }

    /// A slot's `length` and `timestamp_nanos`, from the bytes that the two copies of
    /// [`Region::read_slot_meta`] fetched.
    pub fn slot_meta(&self, length: &[u8], timestamp_nanos: &[u8]) -> (r: (u32, u64))
        requires
            length@.len() == 4,
            timestamp_nanos@.len() == 8,
        ensures
            r.0 == byte_order::int_value(self@.order, length@),
            r.1 == byte_order::int_value(self@.order, timestamp_nanos@),
    {
        proof {
            byte_order::lemma_value_fits_u32(self@.order, length@);
        }
        (self.order.decode(length) as u32, self.order.decode(timestamp_nanos))
    }

    /// Owner-side removal of the region's name: what has to be done for it, if anything.
    /// Idempotent; attachers are refused, since only the creator may remove the name.
    /// Mappings stay valid afterwards; the name just becomes unattachable.
    pub fn unlink(&self) -> (r: Result<Option<HostOp>, TesseraSlateError>)
        ensures
            match r {
                Ok(op) => {
                    &&& self@.unlink_error() is None
                    &&& self@.is_owner
                    &&& op is None <==> self@.manually_unlinked
                    &&& op matches Some(op) ==> op@ == (HostOpView::Unlink {
                        name: self@.shm_name,
                    })
                },
                Err(e) => self@.unlink_error() == Some(e@) && e@ is Region,
            },
            r is Ok <==> self@.is_owner,
    {
        proof {
            use_type_invariant(self);
        }
        if self.manually_unlinked {
            return Ok(None);
        }
        if !self.is_owner {
            return Err(
                TesseraSlateError::Region(
                    "Region::unlink called by an attacher (is_owner=false). Only the creator may unlink the shared-memory name; drop this Region to release the mapping.".to_string(),
                ),
            );
        }
        Ok(Some(HostOp::Unlink { name: self.shm_name.clone() }))
    }

    /// Whether dropping the mapping has to remove the region's name. Once the name has been
    /// removed it must not: by then another owner may have created a region of that name.
    pub fn removes_name_on_drop(&self) -> (r: bool)
        ensures
            r == self@.removes_name_on_drop(),
    {
        self.is_owner && !self.manually_unlinked
    }

    /// Takes note of what the removal of the name by its owner gave. A failure leaves the
    /// clean-up on drop in place.
    pub fn unlinked(&mut self, reply: HostReply) -> (r: Result<(), TesseraSlateError>)
        requires
            old(self)@.is_owner,
            reply@ is Done || reply@ is Refused,
        ensures
            match r {
                Ok(_) => {
                    &&& old(self)@.unlink_failure(reply@) is None
                    &&& final(self)@ == RegionView { manually_unlinked: true, ..old(self)@ }
                },
                Err(e) => {
                    &&& old(self)@.unlink_failure(reply@) == Some(e@)
                    &&& final(self)@ == old(self)@
                },
            },
            r is Err <==> (reply@ matches HostReplyView::Refused { reason, .. } && !(
            reason is NotFound)),
    {
        proof {
            use_type_invariant(&*self);
        }
        match reply {
            HostReply::Refused { reason, message } => {
                if reason != Refusal::NotFound {
                    let mut m: String = "shm_unlink('".to_string();
                    m.append(self.shm_name.as_str());
                    m.append("') failed: ");
                    m.append(message.as_str());
                    return Err(TesseraSlateError::Region(m));
                }
            },
            _ => {},
        }
        self.manually_unlinked = true;
        Ok(())
    }
}

/// How far the opening of a region has come.
#[derive(Copy, Clone, Debug, PartialEq, Eq, Structural)]
pub enum OpenPhase {
    /// The owner creates the segment.
    Create { force_recreate: bool },
    /// The name exists and the owner may replace it: remove it, whatever stands behind it.
    Remove,
    /// The owner creates the segment a second time.
    Recreate,
    /// The segment is there; when?
    Clock,
    /// Stamp the global header.
    Stamp { epoch_micros: u64 },
    /// An attacher maps the segment.
    Attach,
    /// The segment is mapped; what does its global header say?
    Verify,
}

/// A region that is being opened: a state machine. Perform [`RegionOpen::op`], hand the
/// reply to [`RegionOpen::step`], and go on until it is ready or failed.
#[derive(Debug)]
pub struct RegionOpen {
    digest: [u8; 32],
    shm_name: String,
    slot_count: u32,
    slot_size_bytes: u32,
    schema_hash: u64,
    order: ByteOrder,
    phase: OpenPhase,
}

/// What a [`RegionOpen`] holds.
pub struct OpenView {
    pub digest: Seq<u8>,
    pub slot_count: u32,
    pub slot_size_bytes: u32,
    pub schema_hash: u64,
    pub order: ByteOrder,
    pub phase: OpenPhase,
}

/// Where a step led.
pub enum OpenStep {
    /// There is more to do.
    Next(RegionOpen),
    /// The region is open.
    Ready(Region),
    /// The region cannot be opened.
    Failed(TesseraSlateError),
}

/// [`OpenStep`] by views.
pub enum OpenStepView {
    Next(OpenView),
    Ready(RegionView),
    Failed(ErrorView),
}

impl View for OpenStep {
    type V = OpenStepView;

    open spec fn view(&self) -> OpenStepView {
        match *self {
            OpenStep::Next(o) => OpenStepView::Next(o@),
            OpenStep::Ready(r) => OpenStepView::Ready(r@),
            OpenStep::Failed(e) => OpenStepView::Failed(e@),
        }
    }
}

/// Why a create request is refused before anything is done, if it is.
pub open spec fn create_error(slot_count: u32, slot_size_bytes: u32) -> Option<ErrorView> {
    if geometry_error(slot_count, slot_size_bytes) is Some {
        geometry_error(slot_count, slot_size_bytes)
    } else if !header::region_fits(slot_count, slot_size_bytes) {
        Some(
            ErrorView::Config(
                "region size overflow (slot_count "@ + text::decimal(slot_count as nat)
                    + " * (header + slot_size_bytes "@ + text::decimal(slot_size_bytes as nat)
                    + ") exceeds usize::MAX)"@,
            ),
        )
    } else {
        None
    }
}

impl OpenView {
    /// What holds of every opening: the geometry is valid, and past the mapping of an
    /// existing segment its size is known to be addressable.
    pub open spec fn wf(self) -> bool {
        &&& self.digest.len() == 32
        &&& geometry_error(self.slot_count, self.slot_size_bytes) is None
        &&& self.phase is Attach || header::region_fits(self.slot_count, self.slot_size_bytes)
    }

    /// The region's size in bytes.
    pub open spec fn size(self) -> nat {
        header::region_size(self.slot_count, self.slot_size_bytes)
    }

    /// The global header that the creator stamps.
    pub open spec fn stamp(self, epoch_micros: u64) -> HeaderView {
        HeaderView {
            magic: MAGIC,
            format_version: FORMAT_VERSION,
            _pad0: 0,
            epoch_micros,
            slot_count: self.slot_count,
            slot_size_bytes: self.slot_size_bytes,
            schema_hash: self.schema_hash,
            writer_seq: 0,
            last_update_ns: 0,
            handle_blake3: self.digest,
            _reserved: Seq::new(40, |i: int| 0u8),
        }
    }

    /// The same opening in another phase.
    pub open spec fn at(self, phase: OpenPhase) -> OpenView {
        OpenView { phase, ..self }
    }

    /// The open region.
    pub open spec fn region(self, is_owner: bool) -> RegionView {
        RegionView {
            slot_count: self.slot_count,
            slot_size_bytes: self.slot_size_bytes,
            schema_hash: self.schema_hash,
            order: self.order,
            shm_name: namespace::region_name(self.digest),
            is_owner,
            manually_unlinked: false,
        }
    }

    /// What has to be done now.
    pub open spec fn op(self) -> HostOpView {
        let name = namespace::region_name(self.digest);
        match self.phase {
            OpenPhase::Create { .. } => HostOpView::Create { name, size: self.size() as usize },
            OpenPhase::Remove => HostOpView::Unlink { name },
            OpenPhase::Recreate => HostOpView::Create { name, size: self.size() as usize },
            OpenPhase::Clock => HostOpView::ReadClock,
            OpenPhase::Stamp { epoch_micros } => HostOpView::Memory(
                OpView::CopyIn {
                    offset: 0,
                    bytes: self.stamp(epoch_micros).image(self.order),
                },
            ),
            OpenPhase::Attach => HostOpView::Open { name },
            OpenPhase::Verify => HostOpView::Memory(
                OpView::CopyOut { offset: 0, len: GlobalHeader::SIZE },
            ),
        }
    }

    /// Why a mapped segment with these header bytes is refused, if it is. The checks come
    /// in this order: magic, layout version, geometry, schema hash, digest.
    pub open spec fn header_error(self, bytes: Seq<u8>) -> Option<ErrorView> {
        let magic = byte_order::int_value(self.order, header::field(bytes, 0, 8));
        let format = byte_order::int_value(self.order, header::field(bytes, 8, 4));
        let count = byte_order::int_value(self.order, header::field(bytes, 24, 4));
        let size = byte_order::int_value(self.order, header::field(bytes, 28, 4));
        let schema = byte_order::int_value(self.order, header::field(bytes, 32, 8));
        if magic != MAGIC {
            Some(
                ErrorView::HeaderMismatch {
                    message: "magic mismatch: expected 0x"@ + text::hexadecimal(MAGIC as nat)
                        + ", found 0x"@ + text::hexadecimal(magic) + " (not a Slate region?)"@,
                    expected_format: FORMAT_VERSION,
                    found_format: format as u32,
                },
            )
        } else if format != FORMAT_VERSION {
            Some(
                ErrorView::HeaderMismatch {
                    message: "format_version mismatch"@,
                    expected_format: FORMAT_VERSION,
                    found_format: format as u32,
                },
            )
        } else if count != self.slot_count || size != self.slot_size_bytes {
            Some(
                ErrorView::GeometryMismatch {
                    expected_count: self.slot_count,
                    found_count: count as u32,
                    expected_size: self.slot_size_bytes,
                    found_size: size as u32,
                },
            )
        } else if schema != self.schema_hash {
            Some(
                ErrorView::SchemaHashMismatch {
                    expected: self.schema_hash,
                    found: schema as u64,
                },
            )
        } else if header::field(bytes, 56, 32) != self.digest {
            Some(
                ErrorView::Region(
                    "handle digest mismatch on attach — the description derives a different handle than the creator's; verify the description matches across processes."@,
                ),
            )
        } else {
            None
        }
    }

    /// Why a segment of `len` bytes is refused, if it is.
    pub open spec fn mapped_error(self, len: usize) -> Option<ErrorView> {
        if !header::region_fits(self.slot_count, self.slot_size_bytes) {
            Some(ErrorView::Config("region size overflow in caller geometry"@))
        } else if len < self.size() {
            Some(
                ErrorView::Region(
                    "attached SHM region '"@ + namespace::region_name(self.digest) + "' is "@
                        + text::decimal(len as nat) + " bytes, smaller than the "@
                        + text::decimal(self.size())
                        + " bytes the caller's geometry requires; stale segment or geometry mismatch."@,
                ),
            )
        } else {
            None
        }
    }

    /// Why an owner that may not replace an existing segment is refused.
    pub open spec fn clobber_error(self) -> ErrorView {
        ErrorView::Region(
            "Slate region '"@ + namespace::region_name(self.digest)
                + "' already exists. Refusing to clobber. Either another owner is alive (do not create a second), or a prior owner crashed without unlinking; for recovery, retry with force_recreate=true only after confirming no live owner exists."@,
        )
    }

    /// Where the reply to [`OpenView::op`] leads.
    pub open spec fn next(self, reply: HostReplyView) -> OpenStepView {
        match (self.phase, reply) {
            (OpenPhase::Create { force_recreate }, HostReplyView::Refused { reason, message }) =>
                if reason is LinkExists || reason is MappingIdExists {
                    if force_recreate {
                        OpenStepView::Next(self.at(OpenPhase::Remove))
                    } else {
                        OpenStepView::Failed(self.clobber_error())
                    }
                } else {
                    OpenStepView::Failed(ErrorView::Region("create: "@ + message))
                },
            (OpenPhase::Create { .. }, _) => OpenStepView::Next(self.at(OpenPhase::Clock)),
            (OpenPhase::Remove, _) => OpenStepView::Next(self.at(OpenPhase::Recreate)),
            (OpenPhase::Recreate, HostReplyView::Refused { message, .. }) => OpenStepView::Failed(
                ErrorView::Region("create after force_recreate unlink: "@ + message),
            ),
            (OpenPhase::Recreate, _) => OpenStepView::Next(self.at(OpenPhase::Clock)),
            (OpenPhase::Clock, HostReplyView::Clock { micros }) => OpenStepView::Next(
                self.at(OpenPhase::Stamp { epoch_micros: clock::clock_stamp(micros) }),
            ),
            (OpenPhase::Clock, _) => OpenStepView::Next(self),
            (OpenPhase::Stamp { .. }, _) => OpenStepView::Ready(self.region(true)),
            (OpenPhase::Attach, HostReplyView::Mapped { len }) => match self.mapped_error(len) {
                Some(e) => OpenStepView::Failed(e),
                None => OpenStepView::Next(self.at(OpenPhase::Verify)),
            },
            (OpenPhase::Attach, HostReplyView::Refused { message, .. }) => OpenStepView::Failed(
                ErrorView::Region("attach: "@ + message),
            ),
            (OpenPhase::Attach, _) => OpenStepView::Next(self),
            (OpenPhase::Verify, HostReplyView::Memory(ReplyView::Bytes(b))) =>
                match self.header_error(b) {
                    Some(e) => OpenStepView::Failed(e),
                    None => OpenStepView::Ready(self.region(false)),
                },
            (OpenPhase::Verify, _) => OpenStepView::Next(self),
        }
    }
}

impl View for RegionOpen {
    type V = OpenView;

    closed spec fn view(&self) -> OpenView {
        OpenView {
            digest: self.digest@,
            slot_count: self.slot_count,
            slot_size_bytes: self.slot_size_bytes,
            schema_hash: self.schema_hash,
            order: self.order,
            phase: self.phase,
        }
    }
}

impl Region {
    /// Owner path: start to create a fresh region.
    ///
    /// If the name already exists and `force_recreate` is false, the opening refuses to
    /// clobber it (another owner may be alive, or mid-way). With `force_recreate` the
    /// caller asserts that no owner is alive; the stale segment is unlinked and recreated
    /// unconditionally, without a look at what it holds or whether it can be mapped at all.
    pub fn create(
        handle: &NamespaceHandle,
        slot_count: u32,
        slot_size_bytes: u32,
        schema_hash: u64,
        force_recreate: bool,
        order: ByteOrder,
    ) -> (r: Result<RegionOpen, TesseraSlateError>)
        ensures
            match r {
                Ok(o) => {
                    &&& create_error(slot_count, slot_size_bytes) is None
                    &&& o@.wf()
                    &&& o@ == OpenView {
                        digest: handle.digest(),
                        slot_count,
                        slot_size_bytes,
                        schema_hash,
                        order,
                        phase: OpenPhase::Create { force_recreate },
                    }
                },
                Err(e) => create_error(slot_count, slot_size_bytes) == Some(e@) && e@ is Config,
            },
            r is Ok <==> {
                &&& slot_count > 0
                &&& slot_size_bytes > 0
                &&& slot_size_bytes % 8 == 0
                &&& 128 + slot_count * (32 + slot_size_bytes) <= usize::MAX
            },
    {
        proof {
            if slot_count > 0 {
                header::law_region_fits_where_its_size_does(slot_count, slot_size_bytes);
            }
        }
        match validate_geometry(slot_count, slot_size_bytes) {
            Ok(_) => {},
            Err(e) => {
                return Err(e);
            },
        }
        if region_size_bytes(slot_count, slot_size_bytes).is_none() {
            let mut m: String = "region size overflow (slot_count ".to_string();
            push_decimal(&mut m, slot_count as u64);
            m.append(" * (header + slot_size_bytes ");
            push_decimal(&mut m, slot_size_bytes as u64);
            m.append(") exceeds usize::MAX)");
            return Err(TesseraSlateError::Config(m));
        }
        Ok(
            RegionOpen {
                digest: handle.full_digest(),
                shm_name: handle.shm_name(),
                slot_count,
                slot_size_bytes,
                schema_hash,
                order,
                phase: OpenPhase::Create { force_recreate },
            },
        )
    }

    /// Attacher path: start to map an existing region and validate its header against the
    /// caller's geometry and schema hash.
    pub fn attach(
        handle: &NamespaceHandle,
        slot_count: u32,
        slot_size_bytes: u32,
        schema_hash: u64,
        order: ByteOrder,
    ) -> (r: Result<RegionOpen, TesseraSlateError>)
        ensures
            match r {
                Ok(o) => {
                    &&& geometry_error(slot_count, slot_size_bytes) is None
                    &&& o@.wf()
                    &&& o@ == OpenView {
                        digest: handle.digest(),
                        slot_count,
                        slot_size_bytes,
                        schema_hash,
                        order,
                        phase: OpenPhase::Attach,
                    }
                },
                Err(e) => geometry_error(slot_count, slot_size_bytes) == Some(e@) && e@ is Config,
            },
            r is Ok <==> slot_count > 0 && slot_size_bytes > 0 && slot_size_bytes % 8 == 0,
    {
        match validate_geometry(slot_count, slot_size_bytes) {
            Ok(_) => {},
            Err(e) => {
                return Err(e);
            },
        }
        Ok(
            RegionOpen {
                digest: handle.full_digest(),
                shm_name: handle.shm_name(),
                slot_count,
                slot_size_bytes,
                schema_hash,
                order,
                phase: OpenPhase::Attach,
            },
        )
    }
}

impl RegionOpen {
    #[verifier::type_invariant]
    pub closed spec fn wf(self) -> bool {
        &&& self@.wf()
        &&& self.shm_name@ == namespace::region_name(self.digest@)
    }

    /// The bytes of the global header that the creator stamps.
    fn write_global_header(&self, epoch_micros: u64) -> (r: Vec<u8>)
        ensures
            r@ == self@.stamp(epoch_micros).image(self@.order),
            r@.len() == GlobalHeader::SIZE,
    {
        let header = GlobalHeader {
            magic: MAGIC,
            format_version: FORMAT_VERSION,
            _pad0: 0,
            epoch_micros,
            slot_count: self.slot_count,
            slot_size_bytes: self.slot_size_bytes,
            schema_hash: self.schema_hash,
            writer_seq: 0,
            last_update_ns: 0,
            handle_blake3: self.digest,
            _reserved: [0u8; 40],
        };
        assert(header._reserved@ =~= Seq::new(40, |i: int| 0u8));
        header.to_bytes(self.order)
    }

    /// The region's size in bytes.
    fn size(&self) -> (r: usize)
        requires
            !(self@.phase is Attach),
        ensures
            r == self@.size(),
    {
        proof {
            use_type_invariant(self);
        }
        match region_size_bytes(self.slot_count, self.slot_size_bytes) {
            Some(size) => size,
            None => 0,
        }
    }

    /// What has to be done now. Whatever touches the mapped bytes stays inside the region.
    pub fn op(&self) -> (r: HostOp)
        ensures
            r@ == self@.op(),
            r@ matches HostOpView::Memory(op) ==> memory::performable(op, self@.size()),
            r@ matches HostOpView::Create { name, size } ==> {
                &&& name == namespace::region_name(self@.digest)
                &&& size == 128 + self@.slot_count * (32 + self@.slot_size_bytes)
            },
            r@ matches HostOpView::Open { name } ==> name == namespace::region_name(self@.digest),
            r@ matches HostOpView::Unlink { name } ==> name == namespace::region_name(
                self@.digest,
            ),
    {
        proof {
            use_type_invariant(self);
            lemma_offsets(self@.region(true));
        }
        match self.phase {
            OpenPhase::Create { .. } => HostOp::Create {
                name: self.shm_name.clone(),
                size: self.size(),
            },
            OpenPhase::Remove => HostOp::Unlink { name: self.shm_name.clone() },
            OpenPhase::Recreate => HostOp::Create {
                name: self.shm_name.clone(),
                size: self.size(),
            },
            OpenPhase::Clock => HostOp::ReadClock,
            OpenPhase::Stamp { epoch_micros } => HostOp::Memory(
                MemoryOp::CopyIn { offset: 0, bytes: self.write_global_header(epoch_micros) },
            ),
            OpenPhase::Attach => HostOp::Open { name: self.shm_name.clone() },
            OpenPhase::Verify => HostOp::Memory(
                MemoryOp::CopyOut { offset: 0, len: GlobalHeader::SIZE },
            ),
        }
    }

    /// The same opening in another phase.
    fn at(self, phase: OpenPhase) -> (r: RegionOpen)
        requires
            self@.at(phase).wf(),
        ensures
            r@ == self@.at(phase),
    {
        proof {
            use_type_invariant(&self);
        }
        RegionOpen {
            digest: self.digest,
            shm_name: self.shm_name,
            slot_count: self.slot_count,
            slot_size_bytes: self.slot_size_bytes,
            schema_hash: self.schema_hash,
            order: self.order,
            phase,
        }
    }

    /// The open region.
    fn region(self, is_owner: bool) -> (r: Region)
        requires
            !(self@.phase is Attach),
        ensures
            r@ == self@.region(is_owner),
    {
        proof {
            use_type_invariant(&self);
        }
        Region {
            slot_count: self.slot_count,
            slot_size_bytes: self.slot_size_bytes,
            schema_hash: self.schema_hash,
            order: self.order,
            shm_name: self.shm_name,
            is_owner,
            manually_unlinked: false,
        }
    }

    /// Whether a segment of `len` bytes can hold the region that the caller expects. This
    /// comes before any read, so that a truncated or stale segment of the same name is not
    /// read beyond its end.
    fn validate_mapped_len(&self, len: usize) -> (r: Result<(), TesseraSlateError>)
        ensures
            match r {
                Ok(_) => self@.mapped_error(len) is None,
                Err(e) => self@.mapped_error(len) == Some(e@),
            },
    {
        proof {
            use_type_invariant(self);
        }
        match region_size_bytes(self.slot_count, self.slot_size_bytes) {
            None => Err(
                TesseraSlateError::Config("region size overflow in caller geometry".to_string()),
            ),
            Some(expected) => if len < expected {
                let mut m: String = "attached SHM region '".to_string();
                m.append(self.shm_name.as_str());
                m.append("' is ");
                push_decimal(&mut m, len as u64);
                m.append(" bytes, smaller than the ");
                push_decimal(&mut m, expected as u64);
                m.append(
                    " bytes the caller's geometry requires; stale segment or geometry mismatch.",
                );
                Err(TesseraSlateError::Region(m))
            } else {
                Ok(())
            },
        }
    }

    /// Whether the header of a mapped segment is the one that the caller expects.
    fn validate_attached_header(&self, bytes: &[u8]) -> (r: Result<(), TesseraSlateError>)
        requires
            bytes@.len() == GlobalHeader::SIZE,
        ensures
            match r {
                Ok(_) => self@.header_error(bytes@) is None,
                Err(e) => self@.header_error(bytes@) == Some(e@),
            },
    {
        let h = GlobalHeader::from_bytes(self.order, bytes);
        proof {
            header::lemma_fields(h@, self@.order);
        }
        if h.magic != MAGIC {
            let mut m: String = "magic mismatch: expected 0x".to_string();
            push_hexadecimal(&mut m, MAGIC);
            m.append(", found 0x");
            push_hexadecimal(&mut m, h.magic);
            m.append(" (not a Slate region?)");
            return Err(
                TesseraSlateError::HeaderMismatch {
                    message: m,
                    expected_format: FORMAT_VERSION,
                    found_format: h.format_version,
                },
            );
        }
        if h.format_version != FORMAT_VERSION {
            return Err(
                TesseraSlateError::HeaderMismatch {
                    message: "format_version mismatch".to_string(),
                    expected_format: FORMAT_VERSION,
                    found_format: h.format_version,
                },
            );
        }
        if h.slot_count != self.slot_count || h.slot_size_bytes != self.slot_size_bytes {
            return Err(
                TesseraSlateError::GeometryMismatch {
                    expected_count: self.slot_count,
                    found_count: h.slot_count,
                    expected_size: self.slot_size_bytes,
                    found_size: h.slot_size_bytes,
                },
            );
        }
        if h.schema_hash != self.schema_hash {
            return Err(
                TesseraSlateError::SchemaHashMismatch {
                    expected: self.schema_hash,
                    found: h.schema_hash,
                },
            );
        }
        let mut i: usize = 0;
        while i < 32
            invariant
                i <= 32,
                forall|k: int| 0 <= k < i ==> h.handle_blake3@[k] == self.digest@[k],
            ensures
                i <= 32,
                forall|k: int| 0 <= k < i ==> h.handle_blake3@[k] == self.digest@[k],
                i < 32 ==> h.handle_blake3@[i as int] != self.digest@[i as int],
            decreases 32 - i,
        {
            if h.handle_blake3[i] != self.digest[i] {
                break;
            }
            i += 1;
        }
        if i < 32 {
            return Err(
                TesseraSlateError::Region(
                    "handle digest mismatch on attach — the description derives a different handle than the creator's; verify the description matches across processes.".to_string(),
                ),
            );
        }
        assert(h.handle_blake3@ =~= self.digest@);
        Ok(())
    }

    /// Where the reply to [`RegionOpen::op`] leads.
    pub fn step(self, reply: HostReply) -> (r: OpenStep)
        requires
            host::answers(self@.op(), reply@),
        ensures
            r@ == self@.next(reply@),
            r@ matches OpenStepView::Next(o) ==> o.wf(),
            r@ matches OpenStepView::Ready(region) ==> region.wf(),
    {
        proof {
            use_type_invariant(&self);
        }
        match self.phase {
            OpenPhase::Create { force_recreate } => match reply {
                HostReply::Refused { reason, message } => {
                    if reason == Refusal::LinkExists || reason == Refusal::MappingIdExists {
                        if force_recreate {
                            OpenStep::Next(self.at(OpenPhase::Remove))
                        } else {
                            let mut m: String = "Slate region '".to_string();
                            m.append(self.shm_name.as_str());
                            m.append(
                                "' already exists. Refusing to clobber. Either another owner is alive (do not create a second), or a prior owner crashed without unlinking; for recovery, retry with force_recreate=true only after confirming no live owner exists.",
                            );
                            OpenStep::Failed(TesseraSlateError::Region(m))
                        }
                    } else {
                        let mut m: String = "create: ".to_string();
                        m.append(message.as_str());
                        OpenStep::Failed(TesseraSlateError::Region(m))
                    }
                },
                _ => OpenStep::Next(self.at(OpenPhase::Clock)),
            },
            OpenPhase::Remove => OpenStep::Next(self.at(OpenPhase::Recreate)),
            OpenPhase::Recreate => match reply {
                HostReply::Refused { message, .. } => {
                    let mut m: String = "create after force_recreate unlink: ".to_string();
                    m.append(message.as_str());
                    OpenStep::Failed(TesseraSlateError::Region(m))
                },
                _ => OpenStep::Next(self.at(OpenPhase::Clock)),
            },
            OpenPhase::Clock => match reply {
                HostReply::Clock { micros } => {
                    let epoch_micros: u64 = current_epoch_micros(micros);
                    OpenStep::Next(self.at(OpenPhase::Stamp { epoch_micros }))
                },
                _ => OpenStep::Next(self),
            },
            OpenPhase::Stamp { .. } => OpenStep::Ready(self.region(true)),
            OpenPhase::Attach => match reply {
                HostReply::Mapped { len } => match self.validate_mapped_len(len) {
                    Ok(_) => OpenStep::Next(self.at(OpenPhase::Verify)),
                    Err(e) => OpenStep::Failed(e),
                },
                HostReply::Refused { message, .. } => {
                    let mut m: String = "attach: ".to_string();
                    m.append(message.as_str());
                    OpenStep::Failed(TesseraSlateError::Region(m))
                },
                _ => OpenStep::Next(self),
            },
            OpenPhase::Verify => match reply {
                HostReply::Memory(MemoryReply::Bytes(bytes)) => {
                    match self.validate_attached_header(bytes.as_slice()) {
                        Ok(_) => OpenStep::Ready(self.region(false)),
                        Err(e) => OpenStep::Failed(e),
                    }
                },
                _ => OpenStep::Next(self),
            },
        }
    }
}

} // verus!
