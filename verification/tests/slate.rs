use std::cell::RefCell;
use std::collections::HashMap;
use std::rc::Rc;

use tessera_slate::clock::now_ns;
use tessera_slate::header::{slot_offset, LAST_UPDATE_NS_OFFSET, WRITER_SEQ_OFFSET};
use tessera_slate::memory::{AccessOrder, MemoryOp, MemoryReply};
use tessera_slate::host::{HostOp, HostReply, Refusal};
use tessera_slate::region::{OpenStep, Region, RegionOpen};
use tessera_slate::slate::{ReadStep, SlotRead};
use tessera_slate::{
    HeaderSnapshot, NamespaceHandle, ReadResult, Slate, SlateConfig, SlateReader,
    TesseraSlateError,
};

type Segment = Rc<RefCell<Vec<u8>>>;

fn word(mem: &[u8], offset: usize) -> u64 {
    u64::from_ne_bytes(mem[offset..offset + 8].try_into().unwrap())
}

fn set_word(mem: &mut [u8], offset: usize, value: u64) {
    mem[offset..offset + 8].copy_from_slice(&value.to_ne_bytes());
}

/// Performs one operation on the bytes of a segment, all at once.
fn perform(segment: &Segment, op: &MemoryOp) -> MemoryReply {
    let mut mem = segment.borrow_mut();
    match op {
        MemoryOp::Load { offset, .. } => MemoryReply::Value(word(&mem, *offset)),
        MemoryOp::Store { offset, value, .. } => {
            set_word(&mut mem, *offset, *value);
            MemoryReply::Done
        }
        MemoryOp::Increment { offset, .. } => {
            let n = word(&mem, *offset);
            set_word(&mut mem, *offset, n.wrapping_add(1));
            MemoryReply::Done
        }
        MemoryOp::Fence { .. } => MemoryReply::Done,
        MemoryOp::CopyIn { offset, bytes } => {
            mem[*offset..*offset + bytes.len()].copy_from_slice(bytes);
            MemoryReply::Done
        }
        MemoryOp::CopyOut { offset, len } => {
            MemoryReply::Bytes(mem[*offset..*offset + *len].to_vec())
        }
    }
}

fn load(segment: &Segment, op: &MemoryOp) -> u64 {
    match perform(segment, op) {
        MemoryReply::Value(v) => v,
        other => panic!("{other:?}"),
    }
}

/// The shared-memory segments of a machine, by name.
#[derive(Default)]
struct Host {
    segments: RefCell<HashMap<String, Segment>>,
    log: RefCell<Vec<String>>,
}

impl Host {
    /// Runs an opening to its end.
    fn open(
        &self,
        start: Result<RegionOpen, TesseraSlateError>,
    ) -> Result<(Region, Segment), TesseraSlateError> {
        let mut opening = start?;
        let mut mapped: Option<Segment> = None;
        loop {
            let op = opening.op();
            let reply = match &op {
                HostOp::Create { name, size } => {
                    self.log.borrow_mut().push("create".to_string());
                    if self.segments.borrow().contains_key(name) {
                        HostReply::Refused {
                            reason: Refusal::MappingIdExists,
                            message: "exists".to_string(),
                        }
                    } else {
                        let segment: Segment = Rc::new(RefCell::new(vec![0u8; *size]));
                        self.segments.borrow_mut().insert(name.clone(), Rc::clone(&segment));
                        mapped = Some(segment);
                        HostReply::Mapped { len: *size }
                    }
                }
                HostOp::Open { name } => {
                    self.log.borrow_mut().push("open".to_string());
                    match self.segments.borrow().get(name) {
                        Some(segment) => {
                            mapped = Some(Rc::clone(segment));
                            HostReply::Mapped { len: segment.borrow().len() }
                        }
                        None => HostReply::Refused {
                            reason: Refusal::NotFound,
                            message: "no such segment".to_string(),
                        },
                    }
                }
                HostOp::Unlink { name } => {
                    self.log.borrow_mut().push("unlink".to_string());
                    self.unlink(name)
                }
                HostOp::ReadClock => HostReply::Clock { micros: Some(1_700_000_000_000_000) },
                HostOp::Memory(op) => {
                    HostReply::Memory(perform(mapped.as_ref().unwrap(), op))
                }
            };
            assert!(reply.answers(&op));
            match opening.step(reply) {
                OpenStep::Next(next) => opening = next,
                OpenStep::Ready(region) => return Ok((region, mapped.unwrap())),
                OpenStep::Failed(e) => return Err(e),
            }
        }
    }

    fn unlink(&self, name: &str) -> HostReply {
        match self.segments.borrow_mut().remove(name) {
            Some(_) => HostReply::Done,
            None => HostReply::Refused {
                reason: Refusal::NotFound,
                message: "no such segment".to_string(),
            },
        }
    }
}

struct Writer {
    slate: Slate,
    region: Region,
    segment: Segment,
}

struct Reader {
    reader: SlateReader,
    segment: Segment,
}

impl std::fmt::Debug for Writer {
    fn fmt(&self, f: &mut std::fmt::Formatter<'_>) -> std::fmt::Result {
        f.write_str("Writer")
    }
}

impl std::fmt::Debug for Reader {
    fn fmt(&self, f: &mut std::fmt::Formatter<'_>) -> std::fmt::Result {
        f.write_str("Reader")
    }
}

impl Writer {
    fn open(host: &Host, config: SlateConfig) -> Result<Writer, TesseraSlateError> {
        let (region, segment) = host.open(Slate::open(config))?;
        Ok(Writer { slate: Slate::over(region.clone()), region, segment })
    }

    fn write_slot(&self, index: u32, bytes: &[u8]) -> Result<(), TesseraSlateError> {
        self.write_slot_at(index, bytes, now_ns(Some(1_700_000_000_000_000_000)))
    }

    fn write_slot_at(&self, index: u32, bytes: &[u8], ts: u64) -> Result<(), TesseraSlateError> {
        let write = self.slate.write_slot(index, bytes)?;
        let sequence = load(&self.segment, &write.load());
        assert_eq!(sequence % 2, 0, "two writers on slot {index}");
        for op in write.publish(sequence, ts) {
            perform(&self.segment, &op);
        }
        Ok(())
    }

    fn reader(&self) -> Reader {
        Reader { reader: self.slate.reader(), segment: Rc::clone(&self.segment) }
    }
}

/// Runs a read to its end.
fn finish(segment: &Segment, start: SlotRead<'_>) -> ReadResult {
    let mut read = start;
    loop {
        let op = read.op();
        let reply = perform(segment, &op);
        assert!(reply.answers(&op));
        match read.step(reply) {
            ReadStep::Next(next) => read = next,
            ReadStep::Finished(result) => return result,
        }
    }
}

impl Reader {
    fn open(
        host: &Host,
        description: &str,
        slot_count: u32,
        slot_size_bytes: u32,
        schema_hash: u64,
    ) -> Result<Reader, TesseraSlateError> {
        let (region, segment) =
            host.open(SlateReader::open(description, slot_count, slot_size_bytes, schema_hash))?;
        Ok(Reader { reader: SlateReader::over(region), segment })
    }

    fn read_slot(&self, index: u32) -> Result<ReadResult, TesseraSlateError> {
        Ok(finish(&self.segment, self.reader.read_slot(index)?))
    }

    fn header(&self) -> HeaderSnapshot {
        let (count, time) = self.reader.header();
        self.reader.header_snapshot(load(&self.segment, &count), load(&self.segment, &time))
    }
}

fn desc(tag: &str) -> String {
    format!("tessera-slate-test/{tag}")
}

fn config(description: &str, slot_count: u32, slot_size_bytes: u32) -> SlateConfig {
    SlateConfig {
        description: description.to_string(),
        slot_count,
        slot_size_bytes,
        schema_hash: 0,
        is_owner: true,
        force_recreate: false,
    }
}

fn owner(host: &Host, description: &str, slot_count: u32, slot_size_bytes: u32) -> Writer {
    Writer::open(host, config(description, slot_count, slot_size_bytes)).unwrap()
}

#[test]
fn empty_until_first_write() {
    let host = Host::default();
    let w = owner(&host, &desc("empty"), 4, 64);
    let r = w.reader();
    assert_eq!(r.read_slot(0).unwrap(), ReadResult::Empty);
    assert_eq!(r.header().writer_seq, 0);
    assert_eq!(r.header().last_update_ns, 0);
}

#[test]
fn write_then_read_round_trip() {
    let host = Host::default();
    let w = owner(&host, &desc("roundtrip"), 4, 64);
    w.write_slot(1, b"hello slate").unwrap();
    let r = w.reader();
    match r.read_slot(1).unwrap() {
        ReadResult::Slot { bytes, sequence, timestamp_nanos } => {
            assert_eq!(bytes, b"hello slate");
            assert_eq!(sequence, 2);
            assert!(timestamp_nanos > 0);
            assert_eq!(timestamp_nanos, 1_700_000_000_000_000_000);
        }
        other => panic!("expected Slot, got {other:?}"),
    }
    assert_eq!(r.read_slot(0).unwrap(), ReadResult::Empty);
    assert_eq!(r.header().writer_seq, 1);
    assert_eq!(r.header().last_update_ns, 1_700_000_000_000_000_000);
}

#[test]
fn overwrite_returns_latest_only() {
    let host = Host::default();
    let w = owner(&host, &desc("overwrite"), 2, 64);
    w.write_slot(0, b"first").unwrap();
    w.write_slot(0, b"second value").unwrap();
    match w.reader().read_slot(0).unwrap() {
        ReadResult::Slot { bytes, sequence, .. } => {
            assert_eq!(bytes, b"second value");
            assert_eq!(sequence, 4);
        }
        other => panic!("{other:?}"),
    }
}

#[test]
fn shorter_rewrite_leaves_no_stale_tail() {
    let host = Host::default();
    let w = owner(&host, &desc("lengths"), 1, 64);
    let r = w.reader();
    w.write_slot(0, b"running-long-value").unwrap();
    w.write_slot(0, b"ok").unwrap();
    match r.read_slot(0).unwrap() {
        ReadResult::Slot { bytes, .. } => assert_eq!(bytes, b"ok"),
        other => panic!("{other:?}"),
    }
}

#[test]
fn oversized_payload_rejected_without_half_write() {
    let host = Host::default();
    let w = owner(&host, &desc("oversize"), 1, 8);
    let before = w.segment.borrow().clone();
    let err = w.write_slot(0, b"this is way too long").unwrap_err();
    assert!(matches!(err, TesseraSlateError::OversizedPayload { .. }));
    assert!(matches!(err, TesseraSlateError::OversizedPayload { len: 20, capacity: 8 }));
    assert_eq!(err.message(), "payload size 20 exceeds slot capacity 8");
    // The seqlock was never taken: the slot still reads Empty.
    assert_eq!(w.reader().read_slot(0).unwrap(), ReadResult::Empty);
    assert_eq!(*w.segment.borrow(), before);
}

#[test]
fn slot_index_out_of_range() {
    let host = Host::default();
    let w = owner(&host, &desc("oob"), 2, 8);
    assert!(matches!(
        w.write_slot(2, b"x").unwrap_err(),
        TesseraSlateError::SlotIndexOutOfRange { index: 2, slot_count: 2 }
    ));
    assert!(matches!(
        w.reader().read_slot(9).unwrap_err(),
        TesseraSlateError::SlotIndexOutOfRange { index: 9, slot_count: 2 }
    ));
    // The payload is checked before the index.
    assert!(matches!(
        w.write_slot(2, b"ninebytes").unwrap_err(),
        TesseraSlateError::OversizedPayload { len: 9, capacity: 8 }
    ));
}

#[test]
fn refuses_to_clobber_without_force() {
    let host = Host::default();
    let description = desc("clobber");
    let w = owner(&host, &description, 2, 8);
    w.write_slot(0, b"old").unwrap();
    host.log.borrow_mut().clear();
    let again = Writer::open(&host, config(&description, 2, 8));
    assert!(matches!(again, Err(TesseraSlateError::Region(_))));
    assert_eq!(*host.log.borrow(), ["create"]);
    assert!(matches!(w.reader().read_slot(0).unwrap(), ReadResult::Slot { bytes, .. } if bytes == b"old"));
    // force_recreate recovers.
    host.log.borrow_mut().clear();
    let mut forced_config = config(&description, 2, 8);
    forced_config.force_recreate = true;
    let forced = Writer::open(&host, forced_config).unwrap();
    assert_eq!(*host.log.borrow(), ["create", "unlink", "create"]);
    assert_eq!(forced.reader().read_slot(0).unwrap(), ReadResult::Empty);
    // The old mapping stays valid.
    assert!(matches!(w.reader().read_slot(0).unwrap(), ReadResult::Slot { bytes, .. } if bytes == b"old"));
}

#[test]
fn attach_verifies_geometry() {
    // Creator larger than the attacher's claim, so the bounds-safety
    // check (mapped region must be >= the caller's expected size) passes
    // and the semantic geometry check is what fires. (A claim LARGER
    // than the creator trips the bounds check first — also a rejection,
    // but a Region error, not GeometryMismatch.)
    let host = Host::default();
    let description = desc("geometry");
    let _w = owner(&host, &description, 8, 64);
    let err = Reader::open(&host, &description, 4, 64, 0).unwrap_err();
    assert!(matches!(err, TesseraSlateError::GeometryMismatch { .. }));
    assert_eq!(
        err.message(),
        "geometry mismatch: expected slot_count=4, found 8; expected slot_size_bytes=64, found 64"
    );
    let err = Reader::open(&host, &description, 9, 64, 0).unwrap_err();
    match err {
        TesseraSlateError::Region(m) => {
            let name = NamespaceHandle::derive(&description).shm_name();
            assert_eq!(
                m,
                format!(
                    "attached SHM region '{name}' is 896 bytes, smaller than the 992 bytes the \
                    caller's geometry requires; stale segment or geometry mismatch."
                )
            );
        }
        other => panic!("{other:?}"),
    }
}

#[test]
fn attach_verifies_schema_hash() {
    let host = Host::default();
    let description = desc("schemahash");
    let mut c = config(&description, 4, 64);
    c.schema_hash = 0xABCD;
    let _w = Writer::open(&host, c).unwrap();
    // Same hash attaches fine.
    let _ok = Reader::open(&host, &description, 4, 64, 0xABCD).unwrap();
    // A drifted layout hash is refused.
    let err = Reader::open(&host, &description, 4, 64, 0x1234).unwrap_err();
    assert!(matches!(
        err,
        TesseraSlateError::SchemaHashMismatch { expected: 0x1234, found: 0xABCD }
    ));
    assert_eq!(
        err.message(),
        "schema hash mismatch: expected 0x0000000000001234, found 0x000000000000abcd \
        — writer and reader were built against different slot layouts"
    );
}

#[test]
fn second_writer_owns_its_own_slot() {
    let host = Host::default();
    let description = desc("twowriters");
    let owner_h = owner(&host, &description, 4, 64);
    let mut c = config(&description, 4, 64);
    c.is_owner = false;
    let worker = Writer::open(&host, c).unwrap();
    assert!(owner_h.slate.is_owner());
    assert!(!worker.slate.is_owner());
    owner_h.write_slot(0, b"owner").unwrap();
    worker.write_slot(1, b"worker").unwrap();

    let r = owner_h.reader();
    assert!(matches!(r.read_slot(0).unwrap(), ReadResult::Slot { bytes, .. } if bytes == b"owner"));
    assert!(matches!(r.read_slot(1).unwrap(), ReadResult::Slot { bytes, .. } if bytes == b"worker"));
    assert_eq!(r.header().writer_seq, 2);
}

#[test]
fn forced_odd_reports_torn() {
    let host = Host::default();
    let w = owner(&host, &desc("torn"), 1, 64);
    w.write_slot(0, b"clean").unwrap();
    // Simulate a writer dying mid-write: force the sequence odd.
    let offset = w.region.slot_sequence_atomic(0).unwrap();
    perform(
        &w.segment,
        &MemoryOp::Store { offset, value: 3, ordering: AccessOrder::Release },
    );
    assert_eq!(w.reader().read_slot(0).unwrap(), ReadResult::Torn);
}

/// The operations of a write with every copy cut into single bytes.
fn atoms(ops: Vec<MemoryOp>) -> Vec<MemoryOp> {
    let mut out = Vec::new();
    for op in ops {
        match op {
            MemoryOp::CopyIn { offset, bytes } => {
                // Backwards, so that the first byte is the last to arrive.
                for i in (0..bytes.len()).rev() {
                    out.push(MemoryOp::CopyIn { offset: offset + i, bytes: vec![bytes[i]] });
                }
            }
            other => out.push(other),
        }
    }
    out
}

#[test]
fn reads_amid_a_write_are_whole_or_torn() {
    // A reader starts after `start` atoms of a write, and `pace` atoms of it pass between
    // the reader's steps.
    let mut old_seen = 0;
    let mut new_seen = 0;
    let mut torn_seen = 0;
    for start in 0..40 {
        for pace in 0..12 {
            let host = Host::default();
            let w = owner(&host, &desc("amid"), 1, 16);
            w.write_slot_at(0, b"the old payload!", 11).unwrap();
            let write = w.slate.write_slot(0, b"a new one").unwrap();
            let sequence = load(&w.segment, &write.load());
            let steps = atoms(write.publish(sequence, 22));
            let mut at = 0;
            let mut advance = |n: usize| {
                for _ in 0..n {
                    if at < steps.len() {
                        perform(&w.segment, &steps[at]);
                        at += 1;
                    }
                }
            };
            advance(start);
            let reader = w.slate.reader();
            let mut read = reader.read_slot(0).unwrap();
            let result = loop {
                let op = read.op();
                let reply = perform(&w.segment, &op);
                match read.step(reply) {
                    ReadStep::Next(next) => read = next,
                    ReadStep::Finished(result) => break result,
                }
                advance(pace);
            };
            match result {
                ReadResult::Slot { bytes, sequence: 2, timestamp_nanos: 11 } => {
                    assert_eq!(bytes, b"the old payload!");
                    old_seen += 1;
                }
                ReadResult::Slot { bytes, sequence: 4, timestamp_nanos: 22 } => {
                    assert_eq!(bytes, b"a new one");
                    new_seen += 1;
                }
                ReadResult::Torn => torn_seen += 1,
                other => panic!("start {start}, pace {pace}: {other:?}"),
            }
            // With the writer stopped, the next read is a clean snapshot of its write.
            for step in &steps[at..] {
                perform(&w.segment, step);
            }
            match w.reader().read_slot(0).unwrap() {
                ReadResult::Slot { bytes, sequence, timestamp_nanos } => {
                    assert_eq!(bytes, b"a new one");
                    assert_eq!(sequence, 4);
                    assert_eq!(timestamp_nanos, 22);
                }
                other => panic!("{other:?}"),
            }
        }
    }
    assert!(old_seen > 0 && new_seen > 0 && torn_seen > 0);
}

#[test]
fn read_retries_past_a_write_that_ends() {
    let host = Host::default();
    let w = owner(&host, &desc("retry"), 1, 16);
    w.write_slot_at(0, b"one", 1).unwrap();
    let reader = w.slate.reader();
    let mut read = reader.read_slot(0).unwrap();
    let mut steps = 0;
    let result = loop {
        let reply = perform(&w.segment, &read.op());
        steps += 1;
        match read.step(reply) {
            ReadStep::Next(next) => read = next,
            ReadStep::Finished(result) => break result,
        }
        if steps == 3 {
            w.write_slot_at(0, b"two", 2).unwrap();
        }
    };
    assert_eq!(steps, 12);
    assert_eq!(
        result,
        ReadResult::Slot { bytes: b"two".to_vec(), sequence: 4, timestamp_nanos: 2 }
    );
}

#[test]
fn three_collisions_are_torn() {
    let host = Host::default();
    let w = owner(&host, &desc("collisions"), 1, 16);
    w.write_slot(0, b"x").unwrap();
    let reader = w.slate.reader();
    let mut read = reader.read_slot(0).unwrap();
    let mut steps = 0;
    let result = loop {
        let reply = perform(&w.segment, &read.op());
        steps += 1;
        match read.step(reply) {
            ReadStep::Next(next) => read = next,
            ReadStep::Finished(result) => break result,
        }
        w.write_slot(0, b"y").unwrap();
    };
    assert_eq!(steps, 18);
    assert_eq!(result, ReadResult::Torn);
}

#[test]
fn overlong_length_is_cut_to_the_slot() {
    let host = Host::default();
    let w = owner(&host, &desc("overlong"), 2, 16);
    w.write_slot(0, b"0123456789abcdef").unwrap();
    let at = slot_offset(0, 16) + 8;
    w.segment.borrow_mut()[at..at + 4].copy_from_slice(&u32::MAX.to_ne_bytes());
    match w.reader().read_slot(0).unwrap() {
        ReadResult::Slot { bytes, .. } => assert_eq!(bytes, b"0123456789abcdef"),
        other => panic!("{other:?}"),
    }
}

#[test]
fn empty_payload_is_a_value() {
    let host = Host::default();
    let w = owner(&host, &desc("nothing"), 1, 8);
    w.write_slot(0, b"").unwrap();
    match w.reader().read_slot(0).unwrap() {
        ReadResult::Slot { bytes, sequence, .. } => {
            assert!(bytes.is_empty());
            assert_eq!(sequence, 2);
        }
        other => panic!("{other:?}"),
    }
}

#[test]
fn full_sequence_goes_on_with_two() {
    let host = Host::default();
    let w = owner(&host, &desc("round"), 1, 8);
    let at = slot_offset(0, 8);
    set_word(&mut w.segment.borrow_mut(), at, u64::MAX - 1);
    let write = w.slate.write_slot(0, b"x").unwrap();
    let ops = write.publish(load(&w.segment, &write.load()), 9);
    assert!(matches!(ops[0], MemoryOp::Store { offset: 128, value: u64::MAX, .. }));
    for op in &ops {
        perform(&w.segment, op);
    }
    // Zero is for a slot that was never written.
    assert_eq!(word(&w.segment.borrow(), at), 2);
    assert_eq!(
        w.reader().read_slot(0).unwrap(),
        ReadResult::Slot { bytes: b"x".to_vec(), sequence: 2, timestamp_nanos: 9 }
    );
}

#[test]
fn write_changes_its_slot_and_the_counters_only() {
    let host = Host::default();
    let w = owner(&host, &desc("local"), 3, 16);
    w.write_slot(0, b"zero").unwrap();
    w.write_slot(2, b"two").unwrap();
    let before = w.segment.borrow().clone();
    w.write_slot_at(1, b"one", 77).unwrap();
    let after = w.segment.borrow().clone();
    let slot = slot_offset(1, 16);
    for i in 0..before.len() {
        let own = slot <= i && i < slot + 48;
        let counter = WRITER_SEQ_OFFSET <= i && i < LAST_UPDATE_NS_OFFSET + 8;
        if !own && !counter {
            assert_eq!(before[i], after[i], "byte {i}");
        }
    }
    assert_eq!(word(&after, WRITER_SEQ_OFFSET), 3);
    assert_eq!(word(&after, LAST_UPDATE_NS_OFFSET), 77);
    // Attaching is not disturbed.
    Reader::open(&host, &desc("local"), 3, 16, 0).unwrap();
}

#[test]
fn write_marks_odd_then_even() {
    let host = Host::default();
    let w = owner(&host, &desc("plan"), 1, 8);
    let write = w.slate.write_slot(0, b"ab").unwrap();
    assert!(matches!(write.load(), MemoryOp::Load { offset: 128, ordering: AccessOrder::Relaxed }));
    let ops = write.publish(6, 9);
    assert_eq!(ops.len(), 9);
    assert!(matches!(
        ops[0],
        MemoryOp::Store { offset: 128, value: 7, ordering: AccessOrder::Relaxed }
    ));
    assert!(matches!(ops[1], MemoryOp::Fence { ordering: AccessOrder::Release }));
    assert!(matches!(&ops[2], MemoryOp::CopyIn { offset: 160, bytes } if bytes == b"ab"));
    assert!(
        matches!(&ops[3], MemoryOp::CopyIn { offset: 136, bytes } if bytes[..] == 2u32.to_ne_bytes())
    );
    assert!(
        matches!(&ops[4], MemoryOp::CopyIn { offset: 144, bytes } if bytes[..] == 9u64.to_ne_bytes())
    );
    assert!(matches!(ops[5], MemoryOp::Fence { ordering: AccessOrder::Release }));
    assert!(matches!(
        ops[6],
        MemoryOp::Store { offset: 128, value: 8, ordering: AccessOrder::Release }
    ));
    assert!(matches!(
        ops[7],
        MemoryOp::Increment { offset: 40, ordering: AccessOrder::AcqRel }
    ));
    assert!(matches!(
        ops[8],
        MemoryOp::Store { offset: 48, value: 9, ordering: AccessOrder::Release }
    ));
}

#[test]
fn handles_report_the_geometry() {
    let host = Host::default();
    let w = owner(&host, &desc("getters"), 5, 24);
    assert_eq!(w.slate.slot_count(), 5);
    assert_eq!(w.slate.slot_size_bytes(), 24);
    let copy = w.slate.clone();
    assert!(copy.is_owner());
    let reader = copy.reader().clone();
    assert_eq!(reader.slot_count(), 5);
    assert_eq!(reader.slot_size_bytes(), 24);
    assert_eq!(w.region.schema_hash(), 0);
    let header = match perform(&w.segment, &w.region.read_global_header()) {
        MemoryReply::Bytes(b) => b,
        other => panic!("{other:?}"),
    };
    assert_eq!(w.region.epoch_micros(&header), 1_700_000_000_000_000);
    assert_eq!(w.region.slot_payload_ptr(4).unwrap(), 128 + 4 * 56 + 32);
    assert_eq!(w.region.slot_payload_ptr_mut(4).unwrap(), 128 + 4 * 56 + 32);
    assert!(w.region.slot_payload_ptr(5).is_err());
    assert!(w.region.write_slot_meta(5, 0, 0).is_err());
    assert!(w.region.read_slot_meta(5).is_err());
    assert_eq!(w.region.writer_seq_atomic(), 40);
    assert_eq!(w.region.last_update_ns_atomic(), 48);
}

#[test]
fn peers_meet_by_description() {
    let host = Host::default();
    let writer = Writer::open(&host, config("my-app/metrics", 64, 256)).unwrap();
    writer.write_slot(3, b"latest state for slot 3").unwrap();
    let reader = Reader::open(&host, "my-app/metrics", 64, 256, 0).unwrap();
    assert!(
        matches!(reader.read_slot(3).unwrap(), ReadResult::Slot { bytes, .. } if bytes == b"latest state for slot 3")
    );
    assert!(matches!(
        Reader::open(&host, "my-app/other", 64, 256, 0),
        Err(TesseraSlateError::Region(m)) if m == "attach: no such segment"
    ));
}

#[test]
fn writers_of_two_slots_interleave() {
    let host = Host::default();
    let w = owner(&host, &desc("interleave"), 2, 16);
    let first = w.slate.write_slot(0, b"left").unwrap();
    let second = w.slate.write_slot(1, b"right").unwrap();
    let a = atoms(first.publish(load(&w.segment, &first.load()), 5));
    let b = atoms(second.publish(load(&w.segment, &second.load()), 6));
    for i in 0..a.len().max(b.len()) {
        for steps in [&a, &b] {
            if i < steps.len() {
                perform(&w.segment, &steps[i]);
            }
        }
    }
    let r = w.reader();
    assert_eq!(
        r.read_slot(0).unwrap(),
        ReadResult::Slot { bytes: b"left".to_vec(), sequence: 2, timestamp_nanos: 5 }
    );
    assert_eq!(
        r.read_slot(1).unwrap(),
        ReadResult::Slot { bytes: b"right".to_vec(), sequence: 2, timestamp_nanos: 6 }
    );
    assert_eq!(r.header().writer_seq, 2);
    assert_eq!(r.header().last_update_ns, 6);
}

#[test]
fn unopenable_stale_segment_is_replaced() {
    // A leftover of no length: its owner died before it gave it one.
    let host = Host::default();
    let description = desc("stale");
    let name = NamespaceHandle::derive(&description).shm_name();
    host.segments.borrow_mut().insert(name.clone(), Rc::new(RefCell::new(Vec::new())));
    let mut c = config(&description, 2, 8);
    c.force_recreate = true;
    let w = Writer::open(&host, c).unwrap();
    assert_eq!(*host.log.borrow(), ["create", "unlink", "create"]);
    assert_eq!(host.segments.borrow()[&name].borrow().len(), 208);
    w.write_slot(0, b"new").unwrap();
    Reader::open(&host, &description, 2, 8, 0).unwrap();
}

#[test]
fn writes_to_all_slots_are_counted() {
    let host = Host::default();
    let w = owner(&host, &desc("count"), 3, 8);
    for i in 0..20u32 {
        w.write_slot_at(i % 3, &i.to_ne_bytes(), 100 + i as u64).unwrap();
    }
    assert_eq!(w.reader().header().writer_seq, 20);
    assert_eq!(w.reader().header().last_update_ns, 119);
}

#[test]
fn slot_meta_is_what_was_written() {
    let host = Host::default();
    let w = owner(&host, &desc("meta"), 2, 16);
    w.write_slot_at(1, b"seven b", 0x0102_0304_0506_0708).unwrap();
    let (length, timestamp) = w.region.read_slot_meta(1).unwrap();
    let bytes = |op| match perform(&w.segment, op) {
        MemoryReply::Bytes(b) => b,
        other => panic!("{other:?}"),
    };
    assert_eq!(
        w.region.slot_meta(&bytes(&length), &bytes(&timestamp)),
        (7, 0x0102_0304_0506_0708)
    );
}

#[test]
fn owner_and_peer_read_each_others_writes() {
    let host = Host::default();
    let description = desc("agree");
    let o = owner(&host, &description, 2, 16);
    o.write_slot_at(0, b"before", 1).unwrap();
    o.write_slot_at(1, b"the peer came", 2).unwrap();
    // Attaching is not disturbed by what was written.
    let mut c = config(&description, 2, 16);
    c.is_owner = false;
    let peer = Writer::open(&host, c).unwrap();
    let reader = Reader::open(&host, &description, 2, 16, 0).unwrap();
    o.write_slot_at(0, b"by the owner", 3).unwrap();
    peer.write_slot_at(1, b"by the peer", 4).unwrap();
    for r in [o.reader(), peer.reader(), reader] {
        assert_eq!(
            r.read_slot(0).unwrap(),
            ReadResult::Slot { bytes: b"by the owner".to_vec(), sequence: 4, timestamp_nanos: 3 }
        );
        assert_eq!(
            r.read_slot(1).unwrap(),
            ReadResult::Slot { bytes: b"by the peer".to_vec(), sequence: 4, timestamp_nanos: 4 }
        );
        assert_eq!(r.header().writer_seq, 4);
    }
}
