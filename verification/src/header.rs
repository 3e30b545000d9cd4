//! Region layout.
//!
//! ```text
//! offset 0:                  GlobalHeader (GlobalHeader::SIZE = 128 bytes)
//! offset GlobalHeader::SIZE: slot array: slot_count entries, each
//!                            SlotHeader (32 bytes) + slot_size_bytes of payload.
//! ```
//!
//! A region is one flat slot table. Logical grouping, if a caller wants it, is layered above
//! by partitioning the index space. Fields follow one another without gaps (padding is
//! explicit), and numeric fields are in the machine's byte order.
//!
//! ### Seqlock model
//!
//! Each `SlotHeader` carries its own `sequence` counter; the single writer of a slot stamps
//! odd-then-even around the payload copy, and readers retry until they see the same even
//! sequence before and after. `sequence == 0` means the slot has never been written.
use vstd::prelude::*;

use crate::byte_order;
use crate::byte_order::ByteOrder;

verus! {

/// Magic at the top of every region: the ASCII bytes of `TESSLATE`, least significant
/// first. It tells a region of this kind from anything else, and from one that was never
/// stamped.
pub const MAGIC: u64 = 0x4554_414C_5353_4554;

/// Layout version. Attachers reject another version rather than read garbage.
pub const FORMAT_VERSION: u32 = 1;

/// Seqlock read attempts per poll before a read reports [`crate::ReadResult::Torn`].
pub const READ_RETRIES: usize = 3;

/// Byte offset of `writer_seq` within the [`GlobalHeader`].
pub const WRITER_SEQ_OFFSET: usize = 40;

/// Byte offset of `last_update_ns` within the [`GlobalHeader`].
pub const LAST_UPDATE_NS_OFFSET: usize = 48;

/// Byte offset of `sequence` within a [`SlotHeader`].
pub const SLOT_SEQUENCE_OFFSET: usize = 0;

/// Byte offset of `length` within a [`SlotHeader`].
pub const SLOT_LENGTH_OFFSET: usize = 8;

/// Byte offset of `timestamp_nanos` within a [`SlotHeader`].
pub const SLOT_TIMESTAMP_OFFSET: usize = 16;

/// Global region header. Stamped by the creator; read and validated by attachers.
#[derive(Copy, Clone, Debug)]
pub struct GlobalHeader {
    /// Constant [`MAGIC`]. First, so that a zeroed region fails the check.
    pub magic: u64,
    /// [`FORMAT_VERSION`] at creation.
    pub format_version: u32,
    /// Padding to 8-align `epoch_micros`.
    pub _pad0: u32,
    /// Microseconds since the UNIX epoch at creation.
    pub epoch_micros: u64,
    /// Slot count. Fixed at creation.
    pub slot_count: u32,
    /// Payload size of one slot in bytes, without the `SlotHeader`. Fixed at creation.
    pub slot_size_bytes: u32,
    /// Caller-defined layout hash; attachers must supply the same value. `0` means "no
    /// schema".
    pub schema_hash: u64,
    /// Count of writes across all slots.
    pub writer_seq: u64,
    /// Nanoseconds since the UNIX epoch of the most recent write to any slot.
    pub last_update_ns: u64,
    /// BLAKE3 digest of the description at creation.
    pub handle_blake3: [u8; 32],
    /// Reserved for future fields.
    pub _reserved: [u8; 40],
}

/// [`GlobalHeader`] with its bytes as sequences.
pub struct HeaderView {
    pub magic: u64,
    pub format_version: u32,
    pub _pad0: u32,
    pub epoch_micros: u64,
    pub slot_count: u32,
    pub slot_size_bytes: u32,
    pub schema_hash: u64,
    pub writer_seq: u64,
    pub last_update_ns: u64,
    pub handle_blake3: Seq<u8>,
    pub _reserved: Seq<u8>,
}

impl View for GlobalHeader {
    type V = HeaderView;

    open spec fn view(&self) -> HeaderView {
        HeaderView {
            magic: self.magic,
            format_version: self.format_version,
            _pad0: self._pad0,
            epoch_micros: self.epoch_micros,
            slot_count: self.slot_count,
            slot_size_bytes: self.slot_size_bytes,
            schema_hash: self.schema_hash,
            writer_seq: self.writer_seq,
            last_update_ns: self.last_update_ns,
            handle_blake3: self.handle_blake3@,
            _reserved: self._reserved@,
        }
    }
}

impl HeaderView {
    /// Whether the byte fields have their lengths.
    pub open spec fn wf(self) -> bool {
        self.handle_blake3.len() == 32 && self._reserved.len() == 40
    }

    /// The bytes of the header in a region: its fields, one after another.
    pub open spec fn image(self, order: ByteOrder) -> Seq<u8> {
        byte_order::int_bytes(order, self.magic as nat, 8) + byte_order::int_bytes(
            order,
            self.format_version as nat,
            4,
        ) + byte_order::int_bytes(order, self._pad0 as nat, 4) + byte_order::int_bytes(
            order,
            self.epoch_micros as nat,
            8,
        ) + byte_order::int_bytes(order, self.slot_count as nat, 4) + byte_order::int_bytes(
            order,
            self.slot_size_bytes as nat,
            4,
        ) + byte_order::int_bytes(order, self.schema_hash as nat, 8) + byte_order::int_bytes(
            order,
            self.writer_seq as nat,
            8,
        ) + byte_order::int_bytes(order, self.last_update_ns as nat, 8) + self.handle_blake3
            + self._reserved
    }
}

/// Per-slot header. Precedes each slot's payload bytes.
#[derive(Copy, Clone, Debug)]
pub struct SlotHeader {
    /// Seqlock counter. `0`: never written; even: readable; odd: write in progress.
    pub sequence: u64,
    /// Byte length of the payload.
    pub length: u32,
    /// Padding to 8-align `timestamp_nanos`.
    pub _pad0: u32,
    /// Nanoseconds since the UNIX epoch at write time.
    pub timestamp_nanos: u64,
    /// Reserved for future fields.
    pub _reserved: [u8; 8],
}

/// The `width` bytes of `bytes` at `at`.
pub open spec fn field(bytes: Seq<u8>, at: int, width: int) -> Seq<u8> {
    bytes.subrange(at, at + width)
}

/// The 8-byte number at `at`.
fn read_u64(order: ByteOrder, bytes: &[u8], at: usize) -> (r: u64)
    requires
        at + 8 <= bytes.len(),
    ensures
        r == byte_order::int_value(order, field(bytes@, at as int, 8)),
        byte_order::int_bytes(order, r as nat, 8) == field(bytes@, at as int, 8),
{
    proof {
        byte_order::law_bytes_survive(order, field(bytes@, at as int, 8));
    }
    order.decode(vstd::slice::slice_subrange(bytes, at, at + 8))
}

/// The 4-byte number at `at`.
fn read_u32(order: ByteOrder, bytes: &[u8], at: usize) -> (r: u32)
    requires
        at + 4 <= bytes.len(),
    ensures
        r == byte_order::int_value(order, field(bytes@, at as int, 4)),
        byte_order::int_bytes(order, r as nat, 4) == field(bytes@, at as int, 4),
{
    proof {
        byte_order::law_bytes_survive(order, field(bytes@, at as int, 4));
        byte_order::lemma_value_fits_u32(order, field(bytes@, at as int, 4));
    }
    order.decode(vstd::slice::slice_subrange(bytes, at, at + 4)) as u32
}

impl GlobalHeader {
    /// Size of the global header in bytes.
    pub const SIZE: usize = 128;

    /// The bytes of the header in a region.
    pub open spec fn image(self, order: ByteOrder) -> Seq<u8> {
        self@.image(order)
    }

    /// The bytes of the header in a region.
    pub fn to_bytes(&self, order: ByteOrder) -> (r: Vec<u8>)
        ensures
            r@ == self.image(order),
            r@.len() == GlobalHeader::SIZE,
    {
        broadcast use byte_order::lemma_int_bytes_len;

        let mut out: Vec<u8> = order.encode(self.magic, 8);
        out.append(&mut order.encode(self.format_version as u64, 4));
        out.append(&mut order.encode(self._pad0 as u64, 4));
        out.append(&mut order.encode(self.epoch_micros, 8));
        out.append(&mut order.encode(self.slot_count as u64, 4));
        out.append(&mut order.encode(self.slot_size_bytes as u64, 4));
        out.append(&mut order.encode(self.schema_hash, 8));
        out.append(&mut order.encode(self.writer_seq, 8));
        out.append(&mut order.encode(self.last_update_ns, 8));
        out.extend_from_slice(self.handle_blake3.as_slice());
        out.extend_from_slice(self._reserved.as_slice());
        out
    }

    /// The header whose bytes these are.
    pub fn from_bytes(order: ByteOrder, bytes: &[u8]) -> (r: GlobalHeader)
        requires
            bytes@.len() == GlobalHeader::SIZE,
        ensures
            r.image(order) == bytes@,
    {
        let magic = read_u64(order, bytes, 0);
        let format_version = read_u32(order, bytes, 8);
        let _pad0 = read_u32(order, bytes, 12);
        let epoch_micros = read_u64(order, bytes, 16);
        let slot_count = read_u32(order, bytes, 24);
        let slot_size_bytes = read_u32(order, bytes, 28);
        let schema_hash = read_u64(order, bytes, 32);
        let writer_seq = read_u64(order, bytes, 40);
        let last_update_ns = read_u64(order, bytes, 48);
        let mut handle_blake3: [u8; 32] = [0u8; 32];
        let mut i: usize = 0;
        while i < 32
            invariant
                i <= 32,
                bytes@.len() == 128,
                forall|k: int| 0 <= k < i ==> handle_blake3@[k] == bytes@[56 + k],
            decreases 32 - i,
        {
            handle_blake3[i] = bytes[56 + i];
            i += 1;
        }
        let mut _reserved: [u8; 40] = [0u8; 40];
        let mut j: usize = 0;
        while j < 40
            invariant
                j <= 40,
                bytes@.len() == 128,
                forall|k: int| 0 <= k < j ==> _reserved@[k] == bytes@[88 + k],
            decreases 40 - j,
        {
            _reserved[j] = bytes[88 + j];
            j += 1;
        }
        let header = GlobalHeader {
            magic,
            format_version,
            _pad0,
            epoch_micros,
            slot_count,
            slot_size_bytes,
            schema_hash,
            writer_seq,
            last_update_ns,
            handle_blake3,
            _reserved,
        };
        proof {
            assert(handle_blake3@ =~= bytes@.subrange(56, 88));
            assert(_reserved@ =~= bytes@.subrange(88, 128));
            assert(header.image(order) =~= bytes@);
        }
        header
    }
}

impl SlotHeader {
    /// Size of a slot header in bytes.
    pub const SIZE: usize = 32;

    /// The bytes of the slot header in a region.
    pub open spec fn image(self, order: ByteOrder) -> Seq<u8> {
        byte_order::int_bytes(order, self.sequence as nat, 8) + byte_order::int_bytes(
            order,
            self.length as nat,
            4,
        ) + byte_order::int_bytes(order, self._pad0 as nat, 4) + byte_order::int_bytes(
            order,
            self.timestamp_nanos as nat,
            8,
        ) + self._reserved@
    }

    /// The bytes of the slot header in a region.
    pub fn to_bytes(&self, order: ByteOrder) -> (r: Vec<u8>)
        ensures
            r@ == self.image(order),
            r@.len() == SlotHeader::SIZE,
    {
        broadcast use byte_order::lemma_int_bytes_len;

        let mut out: Vec<u8> = order.encode(self.sequence, 8);
        out.append(&mut order.encode(self.length as u64, 4));
        out.append(&mut order.encode(self._pad0 as u64, 4));
        out.append(&mut order.encode(self.timestamp_nanos, 8));
        out.extend_from_slice(self._reserved.as_slice());
        out
    }
}

/// Distance between the starts of successive slots.
pub open spec fn stride(slot_size_bytes: u32) -> nat {
    (SlotHeader::SIZE + slot_size_bytes) as nat
}

/// Offset of slot `index` within the region.
pub open spec fn slot_start(index: u32, slot_size_bytes: u32) -> nat {
    (GlobalHeader::SIZE + index * stride(slot_size_bytes)) as nat
}

/// Offset of the payload of slot `index` within the region.
pub open spec fn payload_start(index: u32, slot_size_bytes: u32) -> nat {
    slot_start(index, slot_size_bytes) + SlotHeader::SIZE as nat
}

/// Total size of a region with the given geometry.
pub open spec fn region_size(slot_count: u32, slot_size_bytes: u32) -> nat {
    (GlobalHeader::SIZE + slot_count * stride(slot_size_bytes)) as nat
}

/// Whether a region of the given geometry can be addressed.
pub open spec fn region_fits(slot_count: u32, slot_size_bytes: u32) -> bool {
    &&& stride(slot_size_bytes) <= usize::MAX
    &&& region_size(slot_count, slot_size_bytes) <= usize::MAX
}

/// Byte offset where the slot array starts.
pub fn slots_data_offset() -> (r: usize)
    ensures
        r == GlobalHeader::SIZE,
{
    GlobalHeader::SIZE
}

/// Byte stride between successive slots: `SlotHeader::SIZE + slot_size_bytes`.
pub fn slot_stride(slot_size_bytes: u32) -> (r: usize)
    requires
        stride(slot_size_bytes) <= usize::MAX,
    ensures
        r == stride(slot_size_bytes),
        r == 32 + slot_size_bytes,
{
    SlotHeader::SIZE + slot_size_bytes as usize
}

/// Byte offset of slot `index`'s header within the region.
pub fn slot_offset(index: u32, slot_size_bytes: u32) -> (r: usize)
    requires
        stride(slot_size_bytes) <= usize::MAX,
        slot_start(index, slot_size_bytes) <= usize::MAX,
    ensures
        r == slot_start(index, slot_size_bytes),
        r == 128 + index * (32 + slot_size_bytes),
{
    proof {
        vstd::arithmetic::mul::lemma_mul_nonnegative(index as int, stride(slot_size_bytes) as int);
    }
    slots_data_offset() + (index as usize) * slot_stride(slot_size_bytes)
}

/// Total region size for the given geometry, or `None` on overflow.
pub fn region_size_bytes(slot_count: u32, slot_size_bytes: u32) -> (r: Option<usize>)
    ensures
        r matches Some(size) ==> size == region_size(slot_count, slot_size_bytes) && size == 128
            + slot_count * (32 + slot_size_bytes),
        r is Some <==> region_fits(slot_count, slot_size_bytes),
        r is Some <==> 32 + slot_size_bytes <= usize::MAX && 128 + slot_count * (32
            + slot_size_bytes) <= usize::MAX,
{
    let stride = SlotHeader::SIZE.checked_add(slot_size_bytes as usize)?;
    proof {
        vstd::arithmetic::mul::lemma_mul_is_commutative(slot_count as int, stride as int);
    }
    let slots = stride.checked_mul(slot_count as usize)?;
    slots_data_offset().checked_add(slots)
}

/// The magic is the ASCII bytes of `TESSLATE`, least significant first.
pub proof fn law_magic_is_ascii()
    ensures
        byte_order::int_bytes(ByteOrder::Little, MAGIC as nat, 8) == seq![
            0x54u8, 0x45u8, 0x53u8, 0x53u8, 0x4Cu8, 0x41u8, 0x54u8, 0x45u8,
        ],
{
    reveal_with_fuel(byte_order::little_bytes, 9);
    assert(byte_order::int_bytes(ByteOrder::Little, MAGIC as nat, 8) =~= seq![
        0x54u8, 0x45u8, 0x53u8, 0x53u8, 0x4Cu8, 0x41u8, 0x54u8, 0x45u8,
    ]);
}

/// The fields of a header are found in its bytes at their offsets, and the numbers that the
/// bytes spell there are its fields.
pub proof fn lemma_fields(h: HeaderView, order: ByteOrder)
    requires
        h.wf(),
    ensures
        h.image(order).len() == GlobalHeader::SIZE,
        field(h.image(order), 0, 8) == byte_order::int_bytes(order, h.magic as nat, 8),
        field(h.image(order), 8, 4) == byte_order::int_bytes(order, h.format_version as nat, 4),
        field(h.image(order), 12, 4) == byte_order::int_bytes(order, h._pad0 as nat, 4),
        field(h.image(order), 16, 8) == byte_order::int_bytes(order, h.epoch_micros as nat, 8),
        field(h.image(order), 24, 4) == byte_order::int_bytes(order, h.slot_count as nat, 4),
        field(h.image(order), 28, 4) == byte_order::int_bytes(order, h.slot_size_bytes as nat, 4),
        field(h.image(order), 32, 8) == byte_order::int_bytes(order, h.schema_hash as nat, 8),
        field(h.image(order), WRITER_SEQ_OFFSET as int, 8) == byte_order::int_bytes(
            order,
            h.writer_seq as nat,
            8,
        ),
        field(h.image(order), LAST_UPDATE_NS_OFFSET as int, 8) == byte_order::int_bytes(
            order,
            h.last_update_ns as nat,
            8,
        ),
        field(h.image(order), 56, 32) == h.handle_blake3,
        field(h.image(order), 88, 40) == h._reserved,
        byte_order::int_value(order, field(h.image(order), 0, 8)) == h.magic,
        byte_order::int_value(order, field(h.image(order), 8, 4)) == h.format_version,
        byte_order::int_value(order, field(h.image(order), 12, 4)) == h._pad0,
        byte_order::int_value(order, field(h.image(order), 16, 8)) == h.epoch_micros,
        byte_order::int_value(order, field(h.image(order), 24, 4)) == h.slot_count,
        byte_order::int_value(order, field(h.image(order), 28, 4)) == h.slot_size_bytes,
        byte_order::int_value(order, field(h.image(order), 32, 8)) == h.schema_hash,
        byte_order::int_value(order, field(h.image(order), 40, 8)) == h.writer_seq,
        byte_order::int_value(order, field(h.image(order), 48, 8)) == h.last_update_ns,
{
    broadcast use byte_order::lemma_int_bytes_len;

    let b = h.image(order);
    assert(field(b, 0, 8) =~= byte_order::int_bytes(order, h.magic as nat, 8));
    assert(field(b, 8, 4) =~= byte_order::int_bytes(order, h.format_version as nat, 4));
    assert(field(b, 12, 4) =~= byte_order::int_bytes(order, h._pad0 as nat, 4));
    assert(field(b, 16, 8) =~= byte_order::int_bytes(order, h.epoch_micros as nat, 8));
    assert(field(b, 24, 4) =~= byte_order::int_bytes(order, h.slot_count as nat, 4));
    assert(field(b, 28, 4) =~= byte_order::int_bytes(order, h.slot_size_bytes as nat, 4));
    assert(field(b, 32, 8) =~= byte_order::int_bytes(order, h.schema_hash as nat, 8));
    assert(field(b, 40, 8) =~= byte_order::int_bytes(order, h.writer_seq as nat, 8));
    assert(field(b, 48, 8) =~= byte_order::int_bytes(order, h.last_update_ns as nat, 8));
    assert(field(b, 56, 32) =~= h.handle_blake3);
    assert(field(b, 88, 40) =~= h._reserved);
    byte_order::lemma_int_counts();
    byte_order::law_number_survives(order, h.magic as nat, 8);
    byte_order::law_number_survives(order, h.format_version as nat, 4);
    byte_order::law_number_survives(order, h._pad0 as nat, 4);
    byte_order::law_number_survives(order, h.epoch_micros as nat, 8);
    byte_order::law_number_survives(order, h.slot_count as nat, 4);
    byte_order::law_number_survives(order, h.slot_size_bytes as nat, 4);
    byte_order::law_number_survives(order, h.schema_hash as nat, 8);
    byte_order::law_number_survives(order, h.writer_seq as nat, 8);
    byte_order::law_number_survives(order, h.last_update_ns as nat, 8);
}

/// The fields of a header are found in its bytes at their offsets; among them the two
/// counters at [`WRITER_SEQ_OFFSET`] and [`LAST_UPDATE_NS_OFFSET`].
pub proof fn law_global_offsets(h: GlobalHeader, order: ByteOrder)
    ensures
        h.image(order).len() == GlobalHeader::SIZE,
        field(h.image(order), 0, 8) == byte_order::int_bytes(order, h.magic as nat, 8),
        field(h.image(order), 8, 4) == byte_order::int_bytes(order, h.format_version as nat, 4),
        field(h.image(order), 12, 4) == byte_order::int_bytes(order, h._pad0 as nat, 4),
        field(h.image(order), 16, 8) == byte_order::int_bytes(order, h.epoch_micros as nat, 8),
        field(h.image(order), 24, 4) == byte_order::int_bytes(order, h.slot_count as nat, 4),
        field(h.image(order), 28, 4) == byte_order::int_bytes(order, h.slot_size_bytes as nat, 4),
        field(h.image(order), 32, 8) == byte_order::int_bytes(order, h.schema_hash as nat, 8),
        field(h.image(order), WRITER_SEQ_OFFSET as int, 8) == byte_order::int_bytes(
            order,
            h.writer_seq as nat,
            8,
        ),
        field(h.image(order), LAST_UPDATE_NS_OFFSET as int, 8) == byte_order::int_bytes(
            order,
            h.last_update_ns as nat,
            8,
        ),
        field(h.image(order), 56, 32) == h.handle_blake3@,
        field(h.image(order), 88, 40) == h._reserved@,
{
    lemma_fields(h@, order);
}

/// The fields of a slot header are found in its bytes at [`SLOT_SEQUENCE_OFFSET`],
/// [`SLOT_LENGTH_OFFSET`] and [`SLOT_TIMESTAMP_OFFSET`].
pub proof fn law_slot_meta_offsets(h: SlotHeader, order: ByteOrder)
    ensures
        h.image(order).len() == SlotHeader::SIZE,
        field(h.image(order), SLOT_SEQUENCE_OFFSET as int, 8) == byte_order::int_bytes(
            order,
            h.sequence as nat,
            8,
        ),
        field(h.image(order), SLOT_LENGTH_OFFSET as int, 4) == byte_order::int_bytes(
            order,
            h.length as nat,
            4,
        ),
        field(h.image(order), SLOT_TIMESTAMP_OFFSET as int, 8) == byte_order::int_bytes(
            order,
            h.timestamp_nanos as nat,
            8,
        ),
        field(h.image(order), 12, 4) == byte_order::int_bytes(order, h._pad0 as nat, 4),
        field(h.image(order), 24, 8) == h._reserved@,
{
    broadcast use byte_order::lemma_int_bytes_len;

    let b = h.image(order);
    assert(field(b, 0, 8) =~= byte_order::int_bytes(order, h.sequence as nat, 8));
    assert(field(b, 8, 4) =~= byte_order::int_bytes(order, h.length as nat, 4));
    assert(field(b, 16, 8) =~= byte_order::int_bytes(order, h.timestamp_nanos as nat, 8));
    assert(field(b, 12, 4) =~= byte_order::int_bytes(order, h._pad0 as nat, 4));
    assert(field(b, 24, 8) =~= h._reserved@);
}

/// Two headers with the same bytes are the same header: an attacher that decodes what a
/// creator stamped gets every field back.
pub proof fn law_header_survives(a: GlobalHeader, b: GlobalHeader, order: ByteOrder)
    requires
        a.image(order) == b.image(order),
    ensures
        a == b,
{
    lemma_fields(a@, order);
    lemma_fields(b@, order);
    assert forall|i: int| 0 <= i < 32 implies a.handle_blake3[i] == b.handle_blake3[i] by {
        assert(a.handle_blake3@[i] == b.handle_blake3@[i]);
    }
    assert forall|i: int| 0 <= i < 40 implies a._reserved[i] == b._reserved[i] by {
        assert(a._reserved@[i] == b._reserved@[i]);
    }
    assert(a.handle_blake3 =~= b.handle_blake3);
    assert(a._reserved =~= b._reserved);
}

/// Where the slot size is a multiple of 8, every slot starts at a multiple of 8.
pub proof fn law_slots_are_aligned(index: u32, slot_size_bytes: u32)
    requires
        slot_size_bytes % 8 == 0,
    ensures
        slot_start(index, slot_size_bytes) % 8 == 0,
        payload_start(index, slot_size_bytes) % 8 == 0,
{
    let eighth: int = stride(slot_size_bytes) as int / 8;
    assert(stride(slot_size_bytes) == 8 * eighth);
    assert(index * (8 * eighth) == 8 * (index * eighth)) by (nonlinear_arith);
}

/// Every slot lies behind the global header and inside the region.
pub proof fn law_slots_are_inside(index: u32, slot_count: u32, slot_size_bytes: u32)
    requires
        index < slot_count,
    ensures
        GlobalHeader::SIZE <= slot_start(index, slot_size_bytes),
        slot_start(index, slot_size_bytes) + stride(slot_size_bytes) <= region_size(
            slot_count,
            slot_size_bytes,
        ),
{
    let w = stride(slot_size_bytes) as int;
    assert(0 <= index * w && index * w + w <= slot_count * w) by (nonlinear_arith)
        requires
            index < slot_count,
            0 <= w,
    ;
}

/// Distinct slots share no byte: the one with the lower index ends where the other starts,
/// or before.
pub proof fn law_slots_are_disjoint(a: u32, b: u32, slot_size_bytes: u32)
    requires
        a < b,
    ensures
        slot_start(a, slot_size_bytes) + stride(slot_size_bytes) <= slot_start(b, slot_size_bytes),
{
    let w = stride(slot_size_bytes) as int;
    assert(a * w + w <= b * w) by (nonlinear_arith)
        requires
            a < b,
            0 <= w,
    ;
}

/// Slots stand one behind the other, without gaps: the first behind the global header, each
/// of the others where the one before it ends, and the region ends where the last one does.
/// In every slot the payload stands behind the slot header.
pub proof fn law_slots_tile_the_region(index: u32, slot_size_bytes: u32)
    ensures
        slot_start(0, slot_size_bytes) == 128,
        index < u32::MAX ==> slot_start((index + 1) as u32, slot_size_bytes) == slot_start(
            index,
            slot_size_bytes,
        ) + 32 + slot_size_bytes,
        payload_start(index, slot_size_bytes) == slot_start(index, slot_size_bytes) + 32,
        region_size(index, slot_size_bytes) == slot_start(index, slot_size_bytes),
        stride(slot_size_bytes) == 32 + slot_size_bytes,
{
    let w = stride(slot_size_bytes) as int;
    assert(0 * w == 0);
    assert((index + 1) * w == index * w + w) by (nonlinear_arith);
}

/// A region with slots can be addressed exactly where its size is a machine word.
pub proof fn law_region_fits_where_its_size_does(slot_count: u32, slot_size_bytes: u32)
    requires
        slot_count > 0,
    ensures
        region_fits(slot_count, slot_size_bytes) <==> 128 + slot_count * (32 + slot_size_bytes)
            <= usize::MAX,
{
    let w = stride(slot_size_bytes) as int;
    assert(w <= slot_count * w) by (nonlinear_arith)
        requires
            slot_count > 0,
            0 <= w,
    ;
}

} // verus!
