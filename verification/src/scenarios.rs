//! What the table is for, from a configuration to what is read back.
//!
//! Openings are run to their end on a system with nobody else at work, and what comes out is
//! told by numbers and offsets: which requests are met and which are refused, what stands in
//! the segment afterwards, who is let in, and what a reader finds of what was written.
use vstd::prelude::*;

use crate::byte_order;
use crate::byte_order::ByteOrder;
use crate::error::ErrorView;
use crate::header;
use crate::host;
use crate::host::{HostOpView, HostReplyView, Refusal};
use crate::laws;
use crate::memory;
use crate::memory::ReplyView;
use crate::namespace;
use crate::region;
use crate::region::{OpenPhase, OpenStepView, OpenView, RegionView};
use crate::seqlock;
use crate::seqlock::Written;
use crate::slate;
use crate::slate::{ReadResultView, SlateConfig};
use crate::text;

verus! {

/// A system: its segments by name, the name of the one that was mapped last, what its clock
/// reads, and the words in which it refuses.
pub struct Host {
    pub segments: Map<Seq<char>, Seq<u8>>,
    pub mapped: Seq<char>,
    pub clock: Option<u128>,
    pub words: Seq<char>,
}

impl Host {
    /// Whether every segment can be addressed.
    pub open spec fn wf(self) -> bool {
        forall|name: Seq<char>|
            self.segments.contains_key(name) ==> (#[trigger] self.segments[name]).len()
                <= usize::MAX
    }
}

/// What a system does and replies. A segment that it creates is zeroed, and there is one
/// segment to a name.
pub open spec fn performed(order: ByteOrder, h: Host, op: HostOpView) -> (Host, HostReplyView) {
    match op {
        HostOpView::Create { name, size } => if h.segments.contains_key(name) {
            (
                h,
                HostReplyView::Refused { reason: Refusal::MappingIdExists, message: h.words },
            )
        } else {
            (
                Host {
                    segments: h.segments.insert(name, Seq::new(size as nat, |i: int| 0u8)),
                    mapped: name,
                    ..h
                },
                HostReplyView::Mapped { len: size },
            )
        },
        HostOpView::Open { name } => if h.segments.contains_key(name) {
            (
                Host { mapped: name, ..h },
                HostReplyView::Mapped { len: h.segments[name].len() as usize },
            )
        } else {
            (h, HostReplyView::Refused { reason: Refusal::NotFound, message: h.words })
        },
        HostOpView::Unlink { name } => if h.segments.contains_key(name) {
            (Host { segments: h.segments.remove(name), ..h }, HostReplyView::Done)
        } else {
            (h, HostReplyView::Refused { reason: Refusal::NotFound, message: h.words })
        },
        HostOpView::ReadClock => (h, HostReplyView::Clock { micros: h.clock }),
        HostOpView::Memory(op) => (
            Host {
                segments: h.segments.insert(
                    h.mapped,
                    memory::effect(order, h.segments[h.mapped], op),
                ),
                ..h
            },
            HostReplyView::Memory(memory::reply_on(order, h.segments[h.mapped], op)),
        ),
    }
}

/// Whether an opening can go on: where it is past the mapping of its segment, that is mapped.
pub open spec fn under_way(o: OpenView, h: Host) -> bool {
    &&& o.wf()
    &&& o.phase is Stamp || o.phase is Verify ==> h.segments.contains_key(h.mapped) && o.size()
        <= h.segments[h.mapped].len()
}

/// Where an opening ends, and how it leaves the system.
pub open spec fn opened(o: OpenView, h: Host) -> (Host, OpenStepView)
    decreases laws::opening_left(o),
    when under_way(o, h)
    via opened_decreases
{
    let done = performed(o.order, h, o.op());
    match o.next(done.1) {
        OpenStepView::Next(n) => opened(n, done.0),
        end => (done.0, end),
    }
}

#[via_fn]
proof fn opened_decreases(o: OpenView, h: Host) {
    region::lemma_offsets(o.region(true));
    let done = performed(o.order, h, o.op());
    assert(host::answers(o.op(), done.1));
    laws::law_openings_are_bounded(o, done.1);
}

/// How many bytes a table of the given geometry takes.
pub open spec fn room(slot_count: u32, slot_size_bytes: u32) -> int {
    128 + slot_count * (32 + slot_size_bytes)
}

/// Whether a table can have this geometry.
pub open spec fn sound(slot_count: u32, slot_size_bytes: u32) -> bool {
    &&& slot_count > 0
    &&& slot_size_bytes > 0
    &&& slot_size_bytes % 8 == 0
    &&& room(slot_count, slot_size_bytes) <= usize::MAX
}

/// The number of `width` bytes at `at`.
pub open spec fn number(order: ByteOrder, mem: Seq<u8>, at: int, width: int) -> nat {
    byte_order::int_value(order, mem.subrange(at, at + width))
}

/// Whether a segment is a table that was just made: as long as its geometry asks for, a
/// header that says what it is, and nothing else in it.
pub open spec fn is_new_table(
    order: ByteOrder,
    mem: Seq<u8>,
    slot_count: u32,
    slot_size_bytes: u32,
    schema_hash: u64,
    digest: Seq<u8>,
) -> bool {
    &&& mem.len() == room(slot_count, slot_size_bytes)
    &&& number(order, mem, 0, 8) == 0x4554_414C_5353_4554
    &&& number(order, mem, 8, 4) == 1
    &&& number(order, mem, 12, 4) == 0
    &&& number(order, mem, 24, 4) == slot_count
    &&& number(order, mem, 28, 4) == slot_size_bytes
    &&& number(order, mem, 32, 8) == schema_hash
    &&& number(order, mem, 40, 8) == 0
    &&& number(order, mem, 48, 8) == 0
    &&& mem.subrange(56, 88) == digest
    &&& forall|i: int| 88 <= i < mem.len() ==> #[trigger] mem[i] == 0
}

/// Whether an open region is what was asked for.
pub open spec fn is_region(
    r: RegionView,
    order: ByteOrder,
    slot_count: u32,
    slot_size_bytes: u32,
    schema_hash: u64,
    name: Seq<char>,
    is_owner: bool,
) -> bool {
    &&& r.slot_count == slot_count
    &&& r.slot_size_bytes == slot_size_bytes
    &&& r.schema_hash == schema_hash
    &&& r.order == order
    &&& r.shm_name == name
    &&& r.is_owner == is_owner
    &&& !r.manually_unlinked
}

/// A geometry is refused exactly where there are no slots, no payload, or a payload that is
/// not a multiple of eight, and where a table of it could not be addressed an owner is
/// refused too.
pub proof fn law_geometry_is_refused_where_unsound(slot_count: u32, slot_size_bytes: u32)
    ensures
        region::geometry_error(slot_count, slot_size_bytes) is None <==> slot_count > 0
            && slot_size_bytes > 0 && slot_size_bytes % 8 == 0,
        region::create_error(slot_count, slot_size_bytes) is None <==> sound(
            slot_count,
            slot_size_bytes,
        ),
        region::geometry_error(slot_count, slot_size_bytes) matches Some(e) ==> e is Config,
        region::create_error(slot_count, slot_size_bytes) matches Some(e) ==> e is Config,
{
    if slot_count > 0 {
        header::law_region_fits_where_its_size_does(slot_count, slot_size_bytes);
    }
}

/// A region is valid exactly where its geometry is sound and nobody but its owner has removed
/// its name; its slots stand where the geometry puts them.
pub proof fn law_region_is_its_geometry(r: RegionView, index: u32)
    ensures
        r.wf() <==> sound(r.slot_count, r.slot_size_bytes) && (r.manually_unlinked
            ==> r.is_owner),
        r.size() == room(r.slot_count, r.slot_size_bytes),
        r.slot(index) == 128 + index * (32 + r.slot_size_bytes),
        r.payload(index) == r.slot(index) + 32,
{
    law_geometry_is_refused_where_unsound(r.slot_count, r.slot_size_bytes);
    if r.slot_count > 0 {
        header::law_region_fits_where_its_size_does(r.slot_count, r.slot_size_bytes);
    }
}

/// A slot is refused exactly where the table has none of that index.
pub proof fn law_index_is_refused_where_out_of_range(r: RegionView, index: u32)
    ensures
        r.index_error(index) is None <==> index < r.slot_count,
        index >= r.slot_count ==> r.index_error(index) == Some(
            ErrorView::SlotIndexOutOfRange { index, slot_count: r.slot_count },
        ),
{
}

/// A write is refused exactly where its bytes exceed the slot's capacity or the table has no
/// slot of that index; where both hold, for its bytes.
pub proof fn law_write_is_refused_where_it_does_not_fit(r: RegionView, index: u32, len: usize)
    ensures
        slate::write_error(r, index, len as nat) is None <==> len <= r.slot_size_bytes && index
            < r.slot_count,
        len > r.slot_size_bytes ==> slate::write_error(r, index, len as nat) == Some(
            ErrorView::OversizedPayload { len, capacity: r.slot_size_bytes as usize },
        ),
        len <= r.slot_size_bytes && index >= r.slot_count ==> slate::write_error(
            r,
            index,
            len as nat,
        ) == Some(ErrorView::SlotIndexOutOfRange { index, slot_count: r.slot_count }),
{
}

/// A write that is not refused is a valid one, and no other is.
pub proof fn law_writes_that_fit_are_valid(r: RegionView, index: u32, what: Written)
    requires
        r.wf(),
    ensures
        seqlock::write_of(r, index, what).wf() <==> what.bytes.len() <= r.slot_size_bytes && index
            < r.slot_count,
{
}

/// An opening carries what its configuration says, all of it: geometry, schema hash, and what
/// the owner may do.
pub proof fn law_opening_carries_its_configuration(c: SlateConfig, order: ByteOrder)
    ensures
        ({
            let o = c.request(c.digest(), order);
            &&& o.slot_count == c.slot_count
            &&& o.slot_size_bytes == c.slot_size_bytes
            &&& o.schema_hash == c.schema_hash
            &&& o.order == order
            &&& o.digest == namespace::blake3_digest(vstd::utf8::encode_utf8(c.description@))
            &&& c.is_owner ==> o.phase == (OpenPhase::Create { force_recreate: c.force_recreate })
            &&& !c.is_owner ==> o.phase is Attach
            &&& c.error() is None <==> (c.slot_count > 0 && c.slot_size_bytes > 0
                && c.slot_size_bytes % 8 == 0 && (c.is_owner ==> room(
                c.slot_count,
                c.slot_size_bytes,
            ) <= usize::MAX))
        }),
{
    law_geometry_is_refused_where_unsound(c.slot_count, c.slot_size_bytes);
}

/// An opening is valid exactly where its digest is one and its geometry is sound; an attacher
/// is told that its geometry cannot be addressed only when it has found its segment.
pub proof fn law_opening_is_its_geometry(o: OpenView)
    ensures
        o.wf() <==> {
            &&& o.digest.len() == 32
            &&& o.slot_count > 0
            &&& o.slot_size_bytes > 0
            &&& o.slot_size_bytes % 8 == 0
            &&& o.phase is Attach || room(o.slot_count, o.slot_size_bytes) <= usize::MAX
        },
        o.size() == room(o.slot_count, o.slot_size_bytes),
{
    law_geometry_is_refused_where_unsound(o.slot_count, o.slot_size_bytes);
    if o.slot_count > 0 {
        header::law_region_fits_where_its_size_does(o.slot_count, o.slot_size_bytes);
    }
}

/// A read can be made of exactly the slots that exist, with three attempts.
pub proof fn law_reads_of_existing_slots_are_valid(r: RegionView, index: u32)
    requires
        r.wf(),
    ensures
        laws::read_of(r, index).wf() <==> index < r.slot_count,
        laws::read_of(r, index).attempts == 3,
        laws::read_of(r, index).phase is Sequence,
{
}

/// What the last three steps of a creation leave.
proof fn lemma_stamped(o: OpenView, h: Host, name: Seq<char>)
    requires
        o.wf(),
        o.phase is Clock,
        name == namespace::region_name(o.digest),
        h.segments.contains_key(name),
        h.mapped == name,
        h.segments[name] == Seq::new(o.size(), |i: int| 0u8),
    ensures
        ({
            let end = opened(o, h);
            let mem = end.0.segments[name];
            &&& end.1 == OpenStepView::Ready(o.region(true))
            &&& end.0.mapped == name
            &&& end.0.segments == h.segments.insert(name, mem)
            &&& mem == laws::created(o, crate::clock::clock_stamp(h.clock))
            &&& is_new_table(
                o.order,
                mem,
                o.slot_count,
                o.slot_size_bytes,
                o.schema_hash,
                o.digest,
            )
            &&& h.clock is None ==> number(o.order, mem, 16, 8) == 0
            &&& h.clock matches Some(units) ==> (units <= u64::MAX ==> number(
                o.order,
                mem,
                16,
                8,
            ) == units)
        }),
{
    reveal_with_fuel(opened, 3);
    let epoch_micros = crate::clock::clock_stamp(h.clock);
    let s = o.at(OpenPhase::Stamp { epoch_micros });
    let header = o.stamp(epoch_micros);
    let image = header.image(o.order);
    let end = opened(o, h);
    let mem = end.0.segments[name];
    assert(mem == laws::created(o, epoch_micros));
    region::lemma_offsets(o.region(true));
    header::lemma_fields(header, o.order);
    law_region_is_its_geometry(o.region(true), 0);
    assert(mem.subrange(0, 8) =~= header::field(image, 0, 8));
    assert(mem.subrange(8, 12) =~= header::field(image, 8, 4));
    assert(mem.subrange(12, 16) =~= header::field(image, 12, 4));
    assert(mem.subrange(16, 24) =~= header::field(image, 16, 8));
    assert(mem.subrange(24, 28) =~= header::field(image, 24, 4));
    assert(mem.subrange(28, 32) =~= header::field(image, 28, 4));
    assert(mem.subrange(32, 40) =~= header::field(image, 32, 8));
    assert(mem.subrange(40, 48) =~= header::field(image, 40, 8));
    assert(mem.subrange(48, 56) =~= header::field(image, 48, 8));
    assert(mem.subrange(56, 88) =~= header::field(image, 56, 32));
    assert forall|i: int| 88 <= i < mem.len() implies #[trigger] mem[i] == 0 by {
        if i < 128 {
            assert(mem[i] == header::field(image, 88, 40)[i - 88]);
        }
    }
    match h.clock {
        Some(units) => {
            crate::clock::law_reading_is_stamped(units);
        },
        None => {},
    }
}

/// An owner's opening makes the table: where its name is free, or where it may replace what
/// stands behind it, it ends with a region that is what was asked for and that it owns, and
/// the segment of that name is then a new table, with the header stamped. The header holds the
/// time of its creation. No other segment is touched.
pub proof fn law_owner_makes_the_table(
    digest: Seq<u8>,
    slot_count: u32,
    slot_size_bytes: u32,
    schema_hash: u64,
    force_recreate: bool,
    order: ByteOrder,
    h: Host,
)
    requires
        digest.len() == 32,
        sound(slot_count, slot_size_bytes),
        !h.segments.contains_key(namespace::region_name(digest)) || force_recreate,
    ensures
        ({
            let name = namespace::region_name(digest);
            let o = OpenView {
                digest,
                slot_count,
                slot_size_bytes,
                schema_hash,
                order,
                phase: OpenPhase::Create { force_recreate },
            };
            let end = opened(o, h);
            let mem = end.0.segments[name];
            &&& end.1 matches OpenStepView::Ready(r)
            &&& is_region(r, order, slot_count, slot_size_bytes, schema_hash, name, true)
            &&& end.0.mapped == name
            &&& end.0.segments.contains_key(name)
            &&& end.0.segments.remove(name) == h.segments.remove(name)
            &&& is_new_table(order, mem, slot_count, slot_size_bytes, schema_hash, digest)
            &&& h.clock is None ==> number(order, mem, 16, 8) == 0
            &&& h.clock matches Some(units) ==> (units <= u64::MAX ==> number(order, mem, 16, 8)
                == units)
        }),
{
    let name = namespace::region_name(digest);
    let o = OpenView {
        digest,
        slot_count,
        slot_size_bytes,
        schema_hash,
        order,
        phase: OpenPhase::Create { force_recreate },
    };
    law_opening_is_its_geometry(o);
    let at_clock = o.at(OpenPhase::Clock);
    let zeros = Seq::new(o.size(), |i: int| 0u8);
    reveal_with_fuel(opened, 4);
    if h.segments.contains_key(name) {
        let gone = Host { segments: h.segments.remove(name), ..h };
        let made = Host { segments: gone.segments.insert(name, zeros), mapped: name, ..h };
        assert(performed(order, h, o.op()).0 == h);
        assert(o.next(performed(order, h, o.op()).1) == OpenStepView::Next(
            o.at(OpenPhase::Remove),
        ));
        assert(performed(order, h, o.at(OpenPhase::Remove).op()).0 == gone);
        assert(performed(order, gone, o.at(OpenPhase::Recreate).op()).0 == made);
        assert(opened(o, h) == opened(at_clock, made));
        lemma_stamped(at_clock, made, name);
        assert(opened(o, h).0.segments.remove(name) =~= h.segments.remove(name));
    } else {
        let made = Host { segments: h.segments.insert(name, zeros), mapped: name, ..h };
        assert(performed(order, h, o.op()).0 == made);
        assert(opened(o, h) == opened(at_clock, made));
        lemma_stamped(at_clock, made, name);
        assert(opened(o, h).0.segments.remove(name) =~= h.segments.remove(name));
    }
}

/// An owner that may not replace what stands behind its name is refused where something
/// does, in words that name it, and leaves every segment as it was.
pub proof fn law_owner_does_not_clobber(
    digest: Seq<u8>,
    slot_count: u32,
    slot_size_bytes: u32,
    schema_hash: u64,
    order: ByteOrder,
    h: Host,
)
    requires
        digest.len() == 32,
        sound(slot_count, slot_size_bytes),
        h.segments.contains_key(namespace::region_name(digest)),
    ensures
        ({
            let o = OpenView {
                digest,
                slot_count,
                slot_size_bytes,
                schema_hash,
                order,
                phase: OpenPhase::Create { force_recreate: false },
            };
            let end = opened(o, h);
            &&& end.0.segments == h.segments
            &&& end.1 matches OpenStepView::Failed(ErrorView::Region(m))
            &&& text::mentions(m, namespace::region_name(digest))
        }),
{
    let o = OpenView {
        digest,
        slot_count,
        slot_size_bytes,
        schema_hash,
        order,
        phase: OpenPhase::Create { force_recreate: false },
    };
    law_opening_is_its_geometry(o);
    reveal_with_fuel(opened, 2);
    let m = opened(o, h).1->Failed_0->Region_0;
    let name = namespace::region_name(digest);
    let head = "Slate region '"@;
    let tail = m.skip((head.len() + name.len()) as int);
    assert(m =~= head + name + tail);
    text::lemma_mentions(head, name, tail);
}

/// Who is let in. An attacher finds the segment of its name or is refused; one that is
/// shorter than its geometry asks for, or a geometry that cannot be addressed, is refused; of
/// the header, the magic, the layout version, the geometry, the schema hash and the digest are
/// looked at in this order, and the first that differs is the reason. Where none does, it gets
/// a region that is what it asked for and that it does not own. No segment is touched.
pub proof fn law_attacher_is_let_in_where_all_agrees(
    digest: Seq<u8>,
    slot_count: u32,
    slot_size_bytes: u32,
    schema_hash: u64,
    order: ByteOrder,
    h: Host,
)
    requires
        digest.len() == 32,
        slot_count > 0,
        slot_size_bytes > 0,
        slot_size_bytes % 8 == 0,
        h.wf(),
    ensures
        ({
            let name = namespace::region_name(digest);
            let o = OpenView {
                digest,
                slot_count,
                slot_size_bytes,
                schema_hash,
                order,
                phase: OpenPhase::Attach,
            };
            let end = opened(o, h);
            let mem = h.segments[name];
            let magic = number(order, mem, 0, 8);
            let format = number(order, mem, 8, 4);
            let count = number(order, mem, 24, 4);
            let size = number(order, mem, 28, 4);
            let schema = number(order, mem, 32, 8);
            let found = h.segments.contains_key(name);
            &&& end.0.segments == h.segments
            &&& !found ==> (end.1 matches OpenStepView::Failed(ErrorView::Region(m))
                && h.words.is_suffix_of(m))
            &&& found && room(slot_count, slot_size_bytes) > usize::MAX ==> (
            end.1 matches OpenStepView::Failed(e) && e is Config)
            &&& found && mem.len() < room(slot_count, slot_size_bytes) <= usize::MAX ==> (
            end.1 matches OpenStepView::Failed(ErrorView::Region(m)) && text::mentions(m, name))
            &&& found && mem.len() >= room(slot_count, slot_size_bytes) ==> {
                if magic != 0x4554_414C_5353_4554 {
                    end.1 matches OpenStepView::Failed(
                        ErrorView::HeaderMismatch { expected_format, found_format, .. },
                    ) && expected_format == 1 && found_format == format
                } else if format != 1 {
                    end.1 matches OpenStepView::Failed(
                        ErrorView::HeaderMismatch { expected_format, found_format, .. },
                    ) && expected_format == 1 && found_format == format
                } else if count != slot_count || size != slot_size_bytes {
                    end.1 matches OpenStepView::Failed(
                        ErrorView::GeometryMismatch {
                            expected_count,
                            found_count,
                            expected_size,
                            found_size,
                        },
                    ) && expected_count == slot_count && found_count == count && expected_size
                        == slot_size_bytes && found_size == size
                } else if schema != schema_hash {
                    end.1 matches OpenStepView::Failed(
                        ErrorView::SchemaHashMismatch { expected, found },
                    ) && expected == schema_hash && found == schema
                } else if mem.subrange(56, 88) != digest {
                    end.1 matches OpenStepView::Failed(e) && e is Region
                } else {
                    &&& end.0.mapped == name
                    &&& end.1 matches OpenStepView::Ready(r)
                    &&& is_region(r, order, slot_count, slot_size_bytes, schema_hash, name, false)
                }
            }
        }),
{
    let name = namespace::region_name(digest);
    let o = OpenView {
        digest,
        slot_count,
        slot_size_bytes,
        schema_hash,
        order,
        phase: OpenPhase::Attach,
    };
    law_opening_is_its_geometry(o);
    header::law_region_fits_where_its_size_does(slot_count, slot_size_bytes);
    reveal_with_fuel(opened, 3);
    let end = opened(o, h);
    let mem = h.segments[name];
    if !h.segments.contains_key(name) {
        let m = "attach: "@ + h.words;
        assert(m.subrange(m.len() - h.words.len(), m.len() as int) =~= h.words);
    } else if !header::region_fits(slot_count, slot_size_bytes) {
    } else if mem.len() < room(slot_count, slot_size_bytes) {
        let m = end.1->Failed_0->Region_0;
        let head = "attached SHM region '"@;
        let tail = m.skip((head.len() + name.len()) as int);
        assert(m =~= head + name + tail);
        text::lemma_mentions(head, name, tail);
    } else {
        let bytes = mem.subrange(0, 128);
        assert(header::field(bytes, 0, 8) =~= mem.subrange(0, 8));
        assert(header::field(bytes, 8, 4) =~= mem.subrange(8, 12));
        assert(header::field(bytes, 24, 4) =~= mem.subrange(24, 28));
        assert(header::field(bytes, 28, 4) =~= mem.subrange(28, 32));
        assert(header::field(bytes, 32, 8) =~= mem.subrange(32, 40));
        assert(header::field(bytes, 56, 32) =~= mem.subrange(56, 88));
        byte_order::lemma_value_fits_u32(order, mem.subrange(8, 12));
        byte_order::lemma_value_fits_u32(order, mem.subrange(24, 28));
        byte_order::lemma_value_fits_u32(order, mem.subrange(28, 32));
        byte_order::lemma_value_fits(order, mem.subrange(32, 40));
        let verify = o.at(OpenPhase::Verify);
        let mapped = Host { mapped: name, ..h };
        assert(performed(order, h, o.op()).0 == mapped);
        assert(o.next(performed(order, h, o.op()).1) == OpenStepView::Next(verify));
        assert(performed(order, mapped, verify.op()).0.segments =~= h.segments);
        assert(performed(order, mapped, verify.op()).1 == HostReplyView::Memory(
            ReplyView::Bytes(bytes),
        ));
    }
}

/// What the system refuses is passed on in its own words, unless the opening goes on to
/// replace what stands in its way.
pub proof fn law_refusals_are_passed_on(o: OpenView, reason: Refusal, words: Seq<char>)
    requires
        o.wf(),
        o.phase is Create || o.phase is Recreate || o.phase is Attach,
    ensures
        ({
            let exists_already = reason is LinkExists || reason is MappingIdExists;
            let end = o.next(HostReplyView::Refused { reason, message: words });
            if o.phase is Create && exists_already {
                o.phase->force_recreate <==> end is Next
            } else {
                end matches OpenStepView::Failed(ErrorView::Region(m)) && words.is_suffix_of(m)
            }
        }),
{
    let end = o.next(HostReplyView::Refused { reason, message: words });
    match end {
        OpenStepView::Failed(ErrorView::Region(m)) => {
            let a = "create: "@ + words;
            let b = "create after force_recreate unlink: "@ + words;
            let c = "attach: "@ + words;
            assert(a.subrange(a.len() - words.len(), a.len() as int) =~= words);
            assert(b.subrange(b.len() - words.len(), b.len() as int) =~= words);
            assert(c.subrange(c.len() - words.len(), c.len() as int) =~= words);
        },
        _ => {},
    }
}

/// The opening of a configuration.
pub open spec fn opening_of(c: SlateConfig, order: ByteOrder) -> OpenView {
    c.request(c.digest(), order)
}

/// The system after the owner of a configuration has made its table.
pub open spec fn made(c: SlateConfig, order: ByteOrder, h: Host) -> Host {
    opened(opening_of(c, order), h).0
}

/// A table admits its like, and nobody else: after an owner has made a table from its
/// configuration, an attacher is let in exactly where its slot count, its slot size, its
/// schema hash and the digest of its description are those of the owner's configuration. With
/// the owner's description, one that differs in the schema hash alone is told both hashes,
/// and one that differs in the geometry is told both geometries, or that the segment is too
/// short for it.
pub proof fn law_table_admits_its_like(
    owner: SlateConfig,
    other: SlateConfig,
    order: ByteOrder,
    h: Host,
)
    requires
        owner.is_owner,
        sound(owner.slot_count, owner.slot_size_bytes),
        !other.is_owner,
        other.slot_count > 0,
        other.slot_size_bytes > 0,
        other.slot_size_bytes % 8 == 0,
        owner.digest().len() == 32,
        other.digest().len() == 32,
        h.wf(),
        !h.segments.contains_key(namespace::region_name(owner.digest())) || owner.force_recreate,
        namespace::region_name(other.digest()) != namespace::region_name(owner.digest())
            ==> !h.segments.contains_key(namespace::region_name(other.digest())),
    ensures
        ({
            let end = opened(opening_of(other, order), made(owner, order, h));
            &&& end.0.segments == made(owner, order, h).segments
            &&& end.1 is Ready <==> {
                &&& other.slot_count == owner.slot_count
                &&& other.slot_size_bytes == owner.slot_size_bytes
                &&& other.schema_hash == owner.schema_hash
                &&& other.digest() == owner.digest()
            }
            &&& end.1 matches OpenStepView::Ready(r) ==> is_region(
                r,
                order,
                owner.slot_count,
                owner.slot_size_bytes,
                owner.schema_hash,
                namespace::region_name(owner.digest()),
                false,
            )
            &&& other.digest() == owner.digest() && other.slot_count == owner.slot_count
                && other.slot_size_bytes == owner.slot_size_bytes && other.schema_hash
                != owner.schema_hash ==> end.1 == OpenStepView::Failed(
                ErrorView::SchemaHashMismatch {
                    expected: other.schema_hash,
                    found: owner.schema_hash,
                },
            )
            &&& other.digest() == owner.digest() && (other.slot_count != owner.slot_count
                || other.slot_size_bytes != owner.slot_size_bytes) && room(
                other.slot_count,
                other.slot_size_bytes,
            ) <= room(owner.slot_count, owner.slot_size_bytes) ==> end.1 == OpenStepView::Failed(
                ErrorView::GeometryMismatch {
                    expected_count: other.slot_count,
                    found_count: owner.slot_count,
                    expected_size: other.slot_size_bytes,
                    found_size: owner.slot_size_bytes,
                },
            )
            &&& owner.description@ == other.description@ ==> owner.digest() == other.digest()
        }),
{
    law_opening_carries_its_configuration(owner, order);
    law_opening_carries_its_configuration(other, order);
    law_owner_makes_the_table(
        owner.digest(),
        owner.slot_count,
        owner.slot_size_bytes,
        owner.schema_hash,
        owner.force_recreate,
        order,
        h,
    );
    let after = made(owner, order, h);
    let name = namespace::region_name(owner.digest());
    let other_name = namespace::region_name(other.digest());
    assert(after.wf()) by {
        assert forall|n: Seq<char>| after.segments.contains_key(n) implies (
        #[trigger] after.segments[n]).len() <= usize::MAX by {
            if n != name {
                assert(after.segments.remove(name).contains_key(n));
                assert(after.segments.remove(name)[n] == h.segments.remove(name)[n]);
            }
        }
    }
    if other_name != name {
        assert(after.segments.remove(name).contains_key(other_name)
            == h.segments.remove(name).contains_key(other_name));
    }
    law_attacher_is_let_in_where_all_agrees(
        other.digest(),
        other.slot_count,
        other.slot_size_bytes,
        other.schema_hash,
        order,
        after,
    );
}

/// A reader is an attacher: what [`crate::SlateReader`] asks for is what a configuration of
/// the same parameters does that does not own the table.
pub proof fn law_reader_is_an_attacher(c: SlateConfig, order: ByteOrder)
    requires
        !c.is_owner,
    ensures
        opening_of(c, order) == (OpenView {
            digest: namespace::blake3_digest(vstd::utf8::encode_utf8(c.description@)),
            slot_count: c.slot_count,
            slot_size_bytes: c.slot_size_bytes,
            schema_hash: c.schema_hash,
            order,
            phase: OpenPhase::Attach,
        }),
{
}

/// What a read gives of bytes that stand still, by where they stand. The slot's sequence is
/// the first thing in it: zero means empty, an odd one torn. Otherwise the read gives that
/// sequence, the timestamp behind the length, and of the payload as many bytes as the length
/// says and the slot holds.
pub proof fn law_read_gives_what_stands_in_the_slot(
    r: RegionView,
    index: u32,
    mem: Seq<u8>,
)
    requires
        sound(r.slot_count, r.slot_size_bytes),
        r.manually_unlinked ==> r.is_owner,
        index < r.slot_count,
        room(r.slot_count, r.slot_size_bytes) <= mem.len(),
    ensures
        ({
            let at = 128 + index * (32 + r.slot_size_bytes);
            let sequence = number(r.order, mem, at, 8);
            let length = number(r.order, mem, at + 8, 4);
            let result = laws::read_alone(laws::read_of(r, index), mem);
            &&& result is Empty <==> sequence == 0
            &&& result is Torn <==> sequence % 2 == 1
            &&& result matches ReadResultView::Slot { bytes, sequence: s, timestamp_nanos } ==> {
                &&& s == sequence
                &&& timestamp_nanos == number(r.order, mem, at + 16, 8)
                &&& bytes.len() <= r.slot_size_bytes
                &&& length <= r.slot_size_bytes ==> bytes.len() == length
                &&& length > r.slot_size_bytes ==> bytes.len() == r.slot_size_bytes
                &&& forall|i: int|
                    0 <= i < bytes.len() ==> #[trigger] bytes[i] == mem[at + 32 + i]
            }
        }),
{
    law_region_is_its_geometry(r, index);
    laws::law_read_gives_content(r, index, mem);
    region::lemma_slot(r, index);
    let at = 128 + index * (32 + r.slot_size_bytes);
    byte_order::lemma_value_fits(r.order, mem.subrange(at, at + 8));
    byte_order::lemma_value_fits(r.order, mem.subrange(at + 16, at + 24));
    byte_order::lemma_value_fits_u32(r.order, mem.subrange(at + 8, at + 12));
}

/// What a write leaves, by where it stands: in its slot the next even sequence, the length,
/// the timestamp and the bytes; in the header the count of writes one higher and the
/// timestamp; and everything else but the rest of its own slot as it was.
pub proof fn law_write_leaves_what_was_asked(
    r: RegionView,
    index: u32,
    mem: Seq<u8>,
    what: Written,
)
    requires
        sound(r.slot_count, r.slot_size_bytes),
        r.manually_unlinked ==> r.is_owner,
        index < r.slot_count,
        what.bytes.len() <= r.slot_size_bytes,
        room(r.slot_count, r.slot_size_bytes) <= mem.len(),
        number(r.order, mem, 128 + index * (32 + r.slot_size_bytes), 8) % 2 == 0,
    ensures
        ({
            let at = 128 + index * (32 + r.slot_size_bytes);
            let new = laws::written(r, index, mem, what);
            let before = number(r.order, mem, at, 8);
            let count = number(r.order, mem, 40, 8);
            &&& new.len() == mem.len()
            &&& before + 2 <= u64::MAX ==> number(r.order, new, at, 8) == before + 2
            &&& before + 2 > u64::MAX ==> number(r.order, new, at, 8) == 2
            &&& number(r.order, new, at + 8, 4) == what.bytes.len()
            &&& number(r.order, new, at + 16, 8) == what.timestamp_nanos
            &&& forall|i: int|
                0 <= i < what.bytes.len() ==> new[at + 32 + i] == #[trigger] what.bytes[i]
            &&& count < u64::MAX ==> number(r.order, new, 40, 8) == count + 1
            &&& count == u64::MAX ==> number(r.order, new, 40, 8) == 0
            &&& number(r.order, new, 48, 8) == what.timestamp_nanos
            &&& forall|i: int|
                0 <= i < mem.len() && !(40 <= i < 56) && !(at <= i < at + 32 + r.slot_size_bytes)
                    ==> #[trigger] new[i] == mem[i]
        }),
{
    law_region_is_its_geometry(r, index);
    law_writes_that_fit_are_valid(r, index, what);
    region::lemma_slot(r, index);
    let at = 128 + index * (32 + r.slot_size_bytes);
    let new = laws::written(r, index, mem, what);
    byte_order::lemma_value_fits(r.order, mem.subrange(at, at + 8));
    byte_order::lemma_value_fits(r.order, mem.subrange(40, 48));
    laws::law_write_lands(r, index, mem, what);
    laws::law_write_counts(r, index, mem, what);
    byte_order::lemma_int_counts();
    byte_order::law_number_survives(r.order, what.bytes.len(), 4);
    byte_order::law_number_survives(r.order, what.timestamp_nanos as nat, 8);
    assert(header::field(new, at + 32, what.bytes.len() as int) == what.bytes);
    assert forall|i: int| 0 <= i < what.bytes.len() implies new[at + 32 + i]
        == #[trigger] what.bytes[i] by {
        assert(header::field(new, at + 32, what.bytes.len() as int)[i] == what.bytes[i]);
    }
    assert forall|i: int|
        0 <= i < mem.len() && !(40 <= i < 56) && !(at <= i < at + 32
            + r.slot_size_bytes) implies #[trigger] new[i] == mem[i] by {
        laws::law_write_is_local(r, index, mem, what, i);
    }
}

/// What the table is for. An owner makes a table from its configuration and writes bytes that
/// fit to a slot that exists; a peer with the same parameters then attaches, and reads exactly
/// these bytes and their timestamp from that slot, with the sequence two. Every other slot is
/// empty, and one write is counted.
pub proof fn law_peer_reads_what_the_owner_wrote(
    owner: SlateConfig,
    peer: SlateConfig,
    order: ByteOrder,
    h: Host,
    index: u32,
    other: u32,
    what: Written,
)
    requires
        owner.is_owner,
        sound(owner.slot_count, owner.slot_size_bytes),
        owner.digest().len() == 32,
        h.wf(),
        !h.segments.contains_key(namespace::region_name(owner.digest())) || owner.force_recreate,
        !peer.is_owner,
        peer.description@ == owner.description@,
        peer.slot_count == owner.slot_count,
        peer.slot_size_bytes == owner.slot_size_bytes,
        peer.schema_hash == owner.schema_hash,
        index < owner.slot_count,
        what.bytes.len() <= owner.slot_size_bytes,
        other < owner.slot_count,
        other != index,
    ensures
        ({
            let name = namespace::region_name(owner.digest());
            let end = opened(opening_of(owner, order), h);
            let table = end.1->Ready_0;
            let mem = laws::written(table, index, end.0.segments[name], what);
            let later = Host { segments: end.0.segments.insert(name, mem), ..end.0 };
            let attached = opened(opening_of(peer, order), later);
            &&& end.1 is Ready
            &&& attached.1 matches OpenStepView::Ready(r)
            &&& attached.0.segments == later.segments
            &&& laws::read_alone(laws::read_of(r, index), mem) == (ReadResultView::Slot {
                bytes: what.bytes,
                sequence: 2,
                timestamp_nanos: what.timestamp_nanos,
            })
            &&& laws::read_alone(laws::read_of(r, other), mem) == ReadResultView::Empty
            &&& number(order, mem, 40, 8) == 1
            &&& number(order, mem, 48, 8) == what.timestamp_nanos
        }),
{
    law_opening_carries_its_configuration(owner, order);
    law_opening_carries_its_configuration(peer, order);
    let name = namespace::region_name(owner.digest());
    law_owner_makes_the_table(
        owner.digest(),
        owner.slot_count,
        owner.slot_size_bytes,
        owner.schema_hash,
        owner.force_recreate,
        order,
        h,
    );
    let end = opened(opening_of(owner, order), h);
    let table = end.1->Ready_0;
    let fresh = end.0.segments[name];
    let mem = laws::written(table, index, fresh, what);
    let later = Host { segments: end.0.segments.insert(name, mem), ..end.0 };
    law_region_is_its_geometry(table, index);
    law_region_is_its_geometry(table, other);
    region::lemma_slot(table, index);
    region::lemma_slot(table, other);
    let at = 128 + index * (32 + owner.slot_size_bytes);
    let there = 128 + other * (32 + owner.slot_size_bytes);
    laws::lemma_zeros(order, fresh.subrange(at, at + 8));
    laws::lemma_zeros(order, fresh.subrange(there, there + 8));
    law_write_leaves_what_was_asked(table, index, fresh, what);
    assert(mem.subrange(0, 8) =~= fresh.subrange(0, 8));
    assert(mem.subrange(8, 12) =~= fresh.subrange(8, 12));
    assert(mem.subrange(24, 28) =~= fresh.subrange(24, 28));
    assert(mem.subrange(28, 32) =~= fresh.subrange(28, 32));
    assert(mem.subrange(32, 40) =~= fresh.subrange(32, 40));
    assert(mem.subrange(56, 88) =~= fresh.subrange(56, 88));
    assert(later.wf()) by {
        assert forall|n: Seq<char>| later.segments.contains_key(n) implies (
        #[trigger] later.segments[n]).len() <= usize::MAX by {
            if n != name {
                assert(end.0.segments.remove(name).contains_key(n));
                assert(end.0.segments.remove(name)[n] == h.segments.remove(name)[n]);
            }
        }
    }
    law_attacher_is_let_in_where_all_agrees(
        owner.digest(),
        owner.slot_count,
        owner.slot_size_bytes,
        owner.schema_hash,
        order,
        later,
    );
    let r = opened(opening_of(peer, order), later).1->Ready_0;
    law_read_gives_what_stands_in_the_slot(r, index, mem);
    law_read_gives_what_stands_in_the_slot(r, other, mem);
    let read = laws::read_alone(laws::read_of(r, index), mem);
    assert(read->bytes =~= what.bytes);
    if index < other {
        header::law_slots_are_disjoint(index, other, owner.slot_size_bytes);
    } else {
        header::law_slots_are_disjoint(other, index, owner.slot_size_bytes);
    }
    assert(mem.subrange(there, there + 8) =~= fresh.subrange(there, there + 8));
}

/// A name is removed by its owner alone, through its sole handle. What has been removed stays
/// removed: nothing more is asked for. A name that was gone is as good as removed, and any
/// other refusal is passed on in words that name the region and end with the system's own.
pub proof fn law_owner_alone_removes_the_name(
    r: RegionView,
    sole_handle: bool,
    reply: HostReplyView,
)
    requires
        r.wf(),
        reply is Done || reply is Refused,
    ensures
        r.unlink_error() is None <==> r.is_owner,
        slate::slate_unlink_error(r, sole_handle) is None <==> sole_handle && r.is_owner,
        slate::slate_unlink_error(r, sole_handle) matches Some(e) ==> e is Region,
        r.removes_name_on_drop() <==> r.is_owner && !r.manually_unlinked,
        reply is Done ==> r.unlink_failure(reply) is None,
        reply matches HostReplyView::Refused { reason, message } ==> {
            &&& r.unlink_failure(reply) is None <==> reason is NotFound
            &&& !(reason is NotFound) ==> (r.unlink_failure(reply) matches Some(
                ErrorView::Region(m),
            ) && text::mentions(m, r.shm_name) && message.is_suffix_of(m))
        },
{
    match reply {
        HostReplyView::Refused { reason, message } => {
            let head = "shm_unlink('"@;
            let tail = "') failed: "@;
            let m = head + r.shm_name + tail + message;
            assert(m =~= head + r.shm_name + (tail + message));
            text::lemma_mentions(head, r.shm_name, tail + message);
            assert(m.subrange(m.len() - message.len(), m.len() as int) =~= message);
        },
        _ => {},
    }
}

/// A payload size that is not a multiple of eight is refused in words that name it and the
/// next multiple of eight.
pub proof fn law_next_multiple_is_named(slot_count: u32, slot_size_bytes: u32, next: nat)
    requires
        slot_count > 0,
        slot_size_bytes % 8 != 0,
        next % 8 == 0,
        slot_size_bytes < next < slot_size_bytes + 8,
    ensures
        region::geometry_error(slot_count, slot_size_bytes) matches Some(ErrorView::Config(m))
            && ("slot_size_bytes="@ + text::decimal(slot_size_bytes as nat)).is_prefix_of(m) && (
        "(round up to "@ + text::decimal(next) + ")"@).is_suffix_of(m),
{
    let size = text::decimal(slot_size_bytes as nat);
    let middle =
        " must be a multiple of 8 so successive slot starts stay 8-byte-aligned for the AtomicU64 seqlock view (round up to "@;
    reveal_strlit(
        " must be a multiple of 8 so successive slot starts stay 8-byte-aligned for the AtomicU64 seqlock view (round up to ",
    );
    reveal_strlit("(round up to ");
    assert(next == slot_size_bytes + 8 - slot_size_bytes % 8);
    let m = "slot_size_bytes="@ + size + middle + text::decimal(next) + ")"@;
    let first = "slot_size_bytes="@ + size;
    let last = "(round up to "@ + text::decimal(next) + ")"@;
    assert(m.subrange(0, first.len() as int) =~= first);
    assert(m.subrange(m.len() - last.len(), m.len() as int) =~= last);
}

/// A geometry whose table could not be addressed is refused in words that name its numbers.
pub proof fn law_overflow_is_named(slot_count: u32, slot_size_bytes: u32)
    requires
        slot_count > 0,
        slot_size_bytes > 0,
        slot_size_bytes % 8 == 0,
        room(slot_count, slot_size_bytes) > usize::MAX,
    ensures
        region::create_error(slot_count, slot_size_bytes) matches Some(ErrorView::Config(m))
            && text::mentions(m, "(slot_count "@ + text::decimal(slot_count as nat) + " "@)
            && text::mentions(
            m,
            "slot_size_bytes "@ + text::decimal(slot_size_bytes as nat) + ")"@,
        ),
{
    law_geometry_is_refused_where_unsound(slot_count, slot_size_bytes);
    reveal_strlit("region size overflow (slot_count ");
    reveal_strlit("region size overflow ");
    reveal_strlit("(slot_count ");
    reveal_strlit(" * (header + slot_size_bytes ");
    reveal_strlit(" ");
    reveal_strlit("* (header + slot_size_bytes ");
    reveal_strlit(" * (header + ");
    reveal_strlit("slot_size_bytes ");
    reveal_strlit(") exceeds usize::MAX)");
    reveal_strlit(")");
    reveal_strlit(" exceeds usize::MAX)");
    let a = text::decimal(slot_count as nat);
    let b = text::decimal(slot_size_bytes as nat);
    let m = region::create_error(slot_count, slot_size_bytes)->Some_0->Config_0;
    let part = "(slot_count "@ + a + " "@;
    let behind = "* (header + slot_size_bytes "@ + b + ") exceeds usize::MAX)"@;
    assert(m =~= "region size overflow "@ + part + behind);
    text::lemma_mentions("region size overflow "@, part, behind);
    let second = "slot_size_bytes "@ + b + ")"@;
    let before = "region size overflow (slot_count "@ + a + " * (header + "@;
    assert(m =~= before + second + " exceeds usize::MAX)"@);
    text::lemma_mentions(before, second, " exceeds usize::MAX)"@);
}

/// A segment that is too short is refused in words that name its length and the length it
/// should have.
pub proof fn law_short_segment_is_named(o: OpenView, len: usize)
    requires
        o.slot_count > 0,
        len < room(o.slot_count, o.slot_size_bytes) <= usize::MAX,
    ensures
        o.mapped_error(len) matches Some(ErrorView::Region(m)) && text::mentions(
            m,
            " is "@ + text::decimal(len as nat) + " bytes"@,
        ) && text::mentions(
            m,
            "the "@ + text::decimal(room(o.slot_count, o.slot_size_bytes) as nat) + " bytes"@,
        ),
{
    header::law_region_fits_where_its_size_does(o.slot_count, o.slot_size_bytes);
    header::law_slots_tile_the_region(o.slot_count, o.slot_size_bytes);
    assert(o.size() == room(o.slot_count, o.slot_size_bytes));
    reveal_strlit("' is ");
    reveal_strlit("'");
    reveal_strlit(" is ");
    reveal_strlit(" bytes");
    reveal_strlit(" bytes, smaller than the ");
    reveal_strlit(", smaller than the ");
    reveal_strlit(" bytes, smaller than ");
    reveal_strlit("the ");
    reveal_strlit(
        " bytes the caller's geometry requires; stale segment or geometry mismatch.",
    );
    reveal_strlit(" the caller's geometry requires; stale segment or geometry mismatch.");
    let name = namespace::region_name(o.digest);
    let a = text::decimal(len as nat);
    let b = text::decimal(o.size());
    let m = o.mapped_error(len)->Some_0->Region_0;
    let head = "attached SHM region '"@ + name + "'"@;
    let part = " is "@ + a + " bytes"@;
    let last = " bytes the caller's geometry requires; stale segment or geometry mismatch."@;
    assert(m =~= head + part + (", smaller than the "@ + b + last));
    text::lemma_mentions(head, part, ", smaller than the "@ + b + last);
    let second = "the "@ + b + " bytes"@;
    let before = head + " is "@ + a + " bytes, smaller than "@;
    let behind = " the caller's geometry requires; stale segment or geometry mismatch."@;
    assert(m =~= before + second + behind);
    text::lemma_mentions(before, second, behind);
}

/// A segment with another magic is refused in words that name the one it has.
pub proof fn law_other_magic_is_named(o: OpenView, bytes: Seq<u8>)
    requires
        byte_order::int_value(o.order, bytes.subrange(0, 8)) != 0x4554_414C_5353_4554,
    ensures
        o.header_error(bytes) matches Some(ErrorView::HeaderMismatch { message, .. })
            && text::mentions(
            message,
            "found 0x"@ + text::hexadecimal(
                byte_order::int_value(o.order, bytes.subrange(0, 8)),
            ) + " "@,
        ) && text::mentions(
            message,
            "expected 0x"@ + text::hexadecimal(0x4554_414C_5353_4554) + ","@,
        ),
{
    reveal_strlit("magic mismatch: expected 0x");
    reveal_strlit("magic mismatch: ");
    reveal_strlit("expected 0x");
    reveal_strlit(", found 0x");
    reveal_strlit(",");
    reveal_strlit(", ");
    reveal_strlit(" ");
    reveal_strlit(" found 0x");
    reveal_strlit("found 0x");
    reveal_strlit(" (not a Slate region?)");
    reveal_strlit("(not a Slate region?)");
    let a = text::hexadecimal(header::MAGIC as nat);
    let b = text::hexadecimal(byte_order::int_value(o.order, bytes.subrange(0, 8)));
    let m = o.header_error(bytes)->Some_0->HeaderMismatch_message;
    let part = "expected 0x"@ + a + ","@;
    let behind = " found 0x"@ + b + " (not a Slate region?)"@;
    assert(m =~= "magic mismatch: "@ + part + behind);
    text::lemma_mentions("magic mismatch: "@, part, behind);
    let second = "found 0x"@ + b + " "@;
    let before = "magic mismatch: expected 0x"@ + a + ", "@;
    assert(m =~= before + second + "(not a Slate region?)"@);
    text::lemma_mentions(before, second, "(not a Slate region?)"@);
}

/// A refusal says what is refused: a table without slots by its slot count, one without
/// payload by its slot size, an attacher that finds another description's table by the digest,
/// one that would remove the name by what it is, and a removal with other handles alive by
/// these.
pub proof fn law_refusals_say_what_is_refused(
    slot_count: u32,
    slot_size_bytes: u32,
    o: OpenView,
    bytes: Seq<u8>,
    r: RegionView,
)
    requires
        bytes.len() == 128,
        r.wf(),
    ensures
        slot_count == 0 ==> (region::geometry_error(slot_count, slot_size_bytes) matches Some(
            ErrorView::Config(m),
        ) && "slot_count must be"@.is_prefix_of(m)),
        slot_count > 0 && slot_size_bytes == 0 ==> (region::geometry_error(
            slot_count,
            slot_size_bytes,
        ) matches Some(ErrorView::Config(m)) && "slot_size_bytes must be"@.is_prefix_of(m)),
        number(o.order, bytes, 0, 8) == 0x4554_414C_5353_4554 && number(o.order, bytes, 8, 4) == 1
            && number(o.order, bytes, 24, 4) == o.slot_count && number(o.order, bytes, 28, 4)
            == o.slot_size_bytes && number(o.order, bytes, 32, 8) == o.schema_hash
            && bytes.subrange(56, 88) != o.digest ==> (o.header_error(bytes) matches Some(
            ErrorView::Region(m),
        ) && "handle digest mismatch"@.is_prefix_of(m)),
        number(o.order, bytes, 0, 8) == 0x4554_414C_5353_4554 && number(o.order, bytes, 8, 4) != 1
            ==> (o.header_error(bytes) matches Some(ErrorView::HeaderMismatch { message, .. })
            && "format_version mismatch"@ == message),
        !r.is_owner ==> (r.unlink_error() matches Some(ErrorView::Region(m))
            && "Region::unlink called by an attacher"@.is_prefix_of(m)),
        slate::slate_unlink_error(r, false) matches Some(ErrorView::Region(m))
            && "cannot unlink while other handles"@.is_prefix_of(m),
{
    reveal_strlit("slot_count must be > 0");
    reveal_strlit("slot_count must be");
    assert("slot_count must be > 0"@.subrange(0, 18) =~= "slot_count must be"@);
    reveal_strlit("slot_size_bytes must be > 0");
    reveal_strlit("slot_size_bytes must be");
    assert("slot_size_bytes must be > 0"@.subrange(0, 23) =~= "slot_size_bytes must be"@);
    reveal_strlit(
        "handle digest mismatch on attach — the description derives a different handle than the creator's; verify the description matches across processes.",
    );
    reveal_strlit("handle digest mismatch");
    assert("handle digest mismatch on attach — the description derives a different handle than the creator's; verify the description matches across processes."@.subrange(
        0,
        22,
    ) =~= "handle digest mismatch"@);
    reveal_strlit(
        "Region::unlink called by an attacher (is_owner=false). Only the creator may unlink the shared-memory name; drop this Region to release the mapping.",
    );
    reveal_strlit("Region::unlink called by an attacher");
    assert("Region::unlink called by an attacher (is_owner=false). Only the creator may unlink the shared-memory name; drop this Region to release the mapping."@.subrange(
        0,
        36,
    ) =~= "Region::unlink called by an attacher"@);
    reveal_strlit("cannot unlink while other handles to this Slate region are alive");
    reveal_strlit("cannot unlink while other handles");
    assert("cannot unlink while other handles to this Slate region are alive"@.subrange(0, 33)
        =~= "cannot unlink while other handles"@);
}

} // verus!
