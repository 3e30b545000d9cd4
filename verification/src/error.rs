//! What can go wrong when a region is opened or a caller misuses it.
use vstd::prelude::*;

use crate::text;
use crate::text::{push_decimal, push_hex_padded};

verus! {

/// All errors flow through this enum.
///
/// There is no history to lose, so there is no "dropped" or "lapped" variant: a reader
/// sees the latest coherent bytes, a slot never written, or a torn read that it should
/// retry, and those three are values ([`crate::ReadResult`]). This enum covers
/// construction, attaching and misuse.
#[derive(Debug)]
pub enum TesseraSlateError {
    /// A configuration bug found at construction (`slot_count == 0`,
    /// `slot_size_bytes == 0`, a slot size that is not a multiple of 8, or a geometry whose
    /// size overflows).
    Config(String),
    /// Creating, attaching or unlinking the region failed.
    Region(String),
    /// The attached region was created with another magic or layout version; reading it
    /// would give garbage.
    HeaderMismatch {
        /// Which field disagrees.
        message: String,
        /// Layout version of this library.
        expected_format: u32,
        /// Layout version stamped in the region.
        found_format: u32,
    },
    /// The attached region's geometry disagrees with the caller's.
    GeometryMismatch {
        /// Slot count the caller asked for.
        expected_count: u32,
        /// Slot count stamped in the region.
        found_count: u32,
        /// Slot size the caller asked for.
        expected_size: u32,
        /// Slot size stamped in the region.
        found_size: u32,
    },
    /// The attached region was made for another layout of what its slots hold.
    SchemaHashMismatch {
        /// Schema hash the caller supplied.
        expected: u64,
        /// Schema hash stamped in the region.
        found: u64,
    },
    /// A slot index outside `0..slot_count`.
    SlotIndexOutOfRange {
        /// Index the caller supplied.
        index: u32,
        /// Configured slot count.
        slot_count: u32,
    },
    /// More bytes than one slot can hold.
    OversizedPayload {
        /// Byte length the caller supplied.
        len: usize,
        /// Capacity of one slot.
        capacity: usize,
    },
}

/// [`TesseraSlateError`] with its texts as character sequences.
pub enum ErrorView {
    Config(Seq<char>),
    Region(Seq<char>),
    HeaderMismatch { message: Seq<char>, expected_format: u32, found_format: u32 },
    GeometryMismatch { expected_count: u32, found_count: u32, expected_size: u32, found_size: u32 },
    SchemaHashMismatch { expected: u64, found: u64 },
    SlotIndexOutOfRange { index: u32, slot_count: u32 },
    OversizedPayload { len: usize, capacity: usize },
}

impl View for TesseraSlateError {
    type V = ErrorView;

    open spec fn view(&self) -> ErrorView {
        match *self {
            TesseraSlateError::Config(m) => ErrorView::Config(m@),
            TesseraSlateError::Region(m) => ErrorView::Region(m@),
            TesseraSlateError::HeaderMismatch { message, expected_format, found_format } =>
                ErrorView::HeaderMismatch { message: message@, expected_format, found_format },
            TesseraSlateError::GeometryMismatch {
                expected_count,
                found_count,
                expected_size,
                found_size,
            } => ErrorView::GeometryMismatch {
                expected_count,
                found_count,
                expected_size,
                found_size,
            },
            TesseraSlateError::SchemaHashMismatch { expected, found } =>
                ErrorView::SchemaHashMismatch { expected, found },
            TesseraSlateError::SlotIndexOutOfRange { index, slot_count } =>
                ErrorView::SlotIndexOutOfRange { index, slot_count },
            TesseraSlateError::OversizedPayload { len, capacity } => ErrorView::OversizedPayload {
                len,
                capacity,
            },
        }
    }
}

/// The sentence that tells an error to a person.
pub open spec fn error_text(e: ErrorView) -> Seq<char> {
    match e {
        ErrorView::Config(m) => "invalid Slate config: "@ + m,
        ErrorView::Region(m) => "shared-memory region error: "@ + m,
        ErrorView::HeaderMismatch { message, expected_format, found_format } =>
            "attached SHM region has incompatible header: "@ + message
                + " (expected format_version="@ + text::decimal(expected_format as nat)
                + ", found "@ + text::decimal(found_format as nat) + ")"@,
        ErrorView::GeometryMismatch { expected_count, found_count, expected_size, found_size } =>
            "geometry mismatch: expected slot_count="@ + text::decimal(
                expected_count as nat,
            ) + ", found "@ + text::decimal(found_count as nat)
                + "; expected slot_size_bytes="@ + text::decimal(expected_size as nat)
                + ", found "@ + text::decimal(found_size as nat),
        ErrorView::SchemaHashMismatch { expected, found } =>
            "schema hash mismatch: expected 0x"@ + text::hex_padded(expected as nat, 16)
                + ", found 0x"@ + text::hex_padded(found as nat, 16)
                + " — writer and reader were built against different slot layouts"@,
        ErrorView::SlotIndexOutOfRange { index, slot_count } => "slot index "@
            + text::decimal(index as nat) + " out of range (slot_count="@
            + text::decimal(slot_count as nat) + ")"@,
        ErrorView::OversizedPayload { len, capacity } => "payload size "@ + text::decimal(
            len as nat,
        ) + " exceeds slot capacity "@ + text::decimal(capacity as nat),
    }
}

impl TesseraSlateError {
    /// The sentence that tells this error to a person.
    pub fn message(&self) -> (r: String)
        ensures
            r@ == error_text(self@),
    {
        let mut out: String = String::new();
        match self {
            TesseraSlateError::Config(m) => {
                out.append("invalid Slate config: ");
                out.append(m.as_str());
            },
            TesseraSlateError::Region(m) => {
                out.append("shared-memory region error: ");
                out.append(m.as_str());
            },
            TesseraSlateError::HeaderMismatch { message, expected_format, found_format } => {
                out.append("attached SHM region has incompatible header: ");
                out.append(message.as_str());
                out.append(" (expected format_version=");
                push_decimal(&mut out, *expected_format as u64);
                out.append(", found ");
                push_decimal(&mut out, *found_format as u64);
                out.append(")");
            },
            TesseraSlateError::GeometryMismatch {
                expected_count,
                found_count,
                expected_size,
                found_size,
            } => {
                out.append("geometry mismatch: expected slot_count=");
                push_decimal(&mut out, *expected_count as u64);
                out.append(", found ");
                push_decimal(&mut out, *found_count as u64);
                out.append("; expected slot_size_bytes=");
                push_decimal(&mut out, *expected_size as u64);
                out.append(", found ");
                push_decimal(&mut out, *found_size as u64);
            },
            TesseraSlateError::SchemaHashMismatch { expected, found } => {
                out.append("schema hash mismatch: expected 0x");
                push_hex_padded(&mut out, *expected, 16);
                out.append(", found 0x");
                push_hex_padded(&mut out, *found, 16);
                out.append(" — writer and reader were built against different slot layouts");
            },
            TesseraSlateError::SlotIndexOutOfRange { index, slot_count } => {
                out.append("slot index ");
                push_decimal(&mut out, *index as u64);
                out.append(" out of range (slot_count=");
                push_decimal(&mut out, *slot_count as u64);
                out.append(")");
            },
            TesseraSlateError::OversizedPayload { len, capacity } => {
                out.append("payload size ");
                push_decimal(&mut out, *len as u64);
                out.append(" exceeds slot capacity ");
                push_decimal(&mut out, *capacity as u64);
            },
        }
        assert(out@ =~= error_text(self@));
        out
    }
}

/// Whether a text is nothing but this beginning and this end.
pub open spec fn begins_and_ends(t: Seq<char>, first: Seq<char>, last: Seq<char>) -> bool {
    &&& first.is_prefix_of(t)
    &&& last.is_suffix_of(t)
    &&& t.len() == first.len() + last.len()
}

/// A sentence tells its error: what a person, or the system, said stands in it unchanged;
/// every number stands behind the word for what it is.
pub proof fn law_sentence_tells_its_error(e: ErrorView)
    ensures
        e matches ErrorView::Config(m) ==> begins_and_ends(
            error_text(e),
            "invalid Slate config: "@,
            m,
        ),
        e matches ErrorView::Region(m) ==> begins_and_ends(
            error_text(e),
            "shared-memory region error: "@,
            m,
        ),
        e matches ErrorView::HeaderMismatch { message, expected_format, found_format }
            ==> begins_and_ends(
            error_text(e),
            "attached SHM region has incompatible header: "@ + message,
            " (expected format_version="@ + text::decimal(expected_format as nat) + ", found "@
                + text::decimal(found_format as nat) + ")"@,
        ),
        e matches ErrorView::GeometryMismatch {
            expected_count,
            found_count,
            expected_size,
            found_size,
        } ==> begins_and_ends(
            error_text(e),
            "geometry mismatch: expected slot_count="@ + text::decimal(expected_count as nat)
                + ", found "@ + text::decimal(found_count as nat),
            "; expected slot_size_bytes="@ + text::decimal(expected_size as nat) + ", found "@
                + text::decimal(found_size as nat),
        ),
        e matches ErrorView::SchemaHashMismatch { expected, found } ==> begins_and_ends(
            error_text(e),
            "schema hash mismatch: expected 0x"@ + text::hex_padded(expected as nat, 16),
            ", found 0x"@ + text::hex_padded(found as nat, 16)
                + " — writer and reader were built against different slot layouts"@,
        ),
        e matches ErrorView::SlotIndexOutOfRange { index, slot_count } ==> begins_and_ends(
            error_text(e),
            "slot index "@ + text::decimal(index as nat),
            " out of range (slot_count="@ + text::decimal(slot_count as nat) + ")"@,
        ),
        e matches ErrorView::OversizedPayload { len, capacity } ==> begins_and_ends(
            error_text(e),
            "payload size "@ + text::decimal(len as nat),
            " exceeds slot capacity "@ + text::decimal(capacity as nat),
        ),
{
    let t = error_text(e);
    match e {
        ErrorView::Config(m) => {
            lemma_ends("invalid Slate config: "@, m);
        },
        ErrorView::Region(m) => {
            lemma_ends("shared-memory region error: "@, m);
        },
        ErrorView::HeaderMismatch { message, expected_format, found_format } => {
            let first = "attached SHM region has incompatible header: "@ + message;
            let last = " (expected format_version="@ + text::decimal(expected_format as nat)
                + ", found "@ + text::decimal(found_format as nat) + ")"@;
            lemma_ends(first, last);
            assert(t =~= first + last);
        },
        ErrorView::GeometryMismatch {
            expected_count,
            found_count,
            expected_size,
            found_size,
        } => {
            let first = "geometry mismatch: expected slot_count="@ + text::decimal(
                expected_count as nat,
            ) + ", found "@ + text::decimal(found_count as nat);
            let last = "; expected slot_size_bytes="@ + text::decimal(expected_size as nat)
                + ", found "@ + text::decimal(found_size as nat);
            lemma_ends(first, last);
            assert(t =~= first + last);
        },
        ErrorView::SchemaHashMismatch { expected, found } => {
            let first = "schema hash mismatch: expected 0x"@ + text::hex_padded(
                expected as nat,
                16,
            );
            let last = ", found 0x"@ + text::hex_padded(found as nat, 16)
                + " — writer and reader were built against different slot layouts"@;
            lemma_ends(first, last);
            assert(t =~= first + last);
        },
        ErrorView::SlotIndexOutOfRange { index, slot_count } => {
            let first = "slot index "@ + text::decimal(index as nat);
            let last = " out of range (slot_count="@ + text::decimal(slot_count as nat) + ")"@;
            lemma_ends(first, last);
            assert(t =~= first + last);
        },
        ErrorView::OversizedPayload { len, capacity } => {
            let first = "payload size "@ + text::decimal(len as nat);
            let last = " exceeds slot capacity "@ + text::decimal(capacity as nat);
            lemma_ends(first, last);
            assert(t =~= first + last);
        },
    }
}

/// A beginning and an end, put together, are just these.
proof fn lemma_ends(before: Seq<char>, last: Seq<char>)
    ensures
        last.is_suffix_of(before + last),
        before.is_prefix_of(before + last),
{
    let t = before + last;
    assert(t.subrange(t.len() - last.len(), t.len() as int) =~= last);
    assert(t.subrange(0, before.len() as int) =~= before);
}

} // verus!
