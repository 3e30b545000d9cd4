use tessera_slate::byte_order::ByteOrder;
use tessera_slate::clock::{current_epoch_micros, now_ns};
use tessera_slate::header::{GlobalHeader, FORMAT_VERSION, MAGIC};
use tessera_slate::memory::{AccessOrder, MemoryOp, MemoryReply};
use tessera_slate::host::{HostOp, HostReply, Refusal};
use tessera_slate::region::{validate_geometry, OpenStep, Region, RegionOpen};
use tessera_slate::{NamespaceHandle, Slate, SlateConfig, SlateReader, TesseraSlateError};

fn handle() -> NamespaceHandle {
    NamespaceHandle::derive("tessera-slate-test/region")
}

fn refused(reason: Refusal, message: &str) -> HostReply {
    HostReply::Refused { reason, message: message.to_string() }
}

fn next(step: OpenStep) -> RegionOpen {
    match step {
        OpenStep::Next(o) => o,
        OpenStep::Ready(_) => panic!("the region is open"),
        OpenStep::Failed(e) => panic!("{e:?}"),
    }
}

fn region_text(step: OpenStep) -> String {
    match step {
        OpenStep::Failed(TesseraSlateError::Region(m)) => m,
        OpenStep::Failed(e) => panic!("{e:?}"),
        _ => panic!("the opening did not fail"),
    }
}

fn creating(force_recreate: bool) -> RegionOpen {
    Region::create(&handle(), 2, 8, 5, force_recreate, ByteOrder::Little).unwrap()
}

fn attaching() -> RegionOpen {
    Region::attach(&handle(), 2, 8, 5, ByteOrder::Little).unwrap()
}

fn header() -> GlobalHeader {
    GlobalHeader {
        magic: MAGIC,
        format_version: FORMAT_VERSION,
        _pad0: 0,
        epoch_micros: 0,
        slot_count: 2,
        slot_size_bytes: 8,
        schema_hash: 5,
        writer_seq: 12,
        last_update_ns: 13,
        handle_blake3: handle().full_digest(),
        _reserved: [0; 40],
    }
}

fn verified(h: &GlobalHeader) -> OpenStep {
    let o = next(attaching().step(HostReply::Mapped { len: 208 }));
    assert!(matches!(o.op(), HostOp::Memory(MemoryOp::CopyOut { offset: 0, len: 128 })));
    o.step(HostReply::Memory(MemoryReply::Bytes(h.to_bytes(ByteOrder::Little))))
}

fn ready(step: OpenStep) -> Region {
    match step {
        OpenStep::Ready(r) => r,
        OpenStep::Next(o) => panic!("{o:?}"),
        OpenStep::Failed(e) => panic!("{e:?}"),
    }
}

fn created() -> Region {
    let o = next(creating(false).step(HostReply::Mapped { len: 208 }));
    let o = next(o.step(HostReply::Clock { micros: Some(42) }));
    ready(o.step(HostReply::Memory(MemoryReply::Done)))
}

#[test]
fn geometry_is_validated() {
    assert!(validate_geometry(1, 8).is_ok());
    let text = |count, size| match validate_geometry(count, size) {
        Err(TesseraSlateError::Config(m)) => m,
        other => panic!("{other:?}"),
    };
    assert_eq!(text(0, 8), "slot_count must be > 0");
    assert_eq!(text(1, 0), "slot_size_bytes must be > 0");
    assert_eq!(text(0, 0), "slot_count must be > 0");
    assert_eq!(
        text(1, 12),
        "slot_size_bytes=12 must be a multiple of 8 so successive slot starts stay \
        8-byte-aligned for the AtomicU64 seqlock view (round up to 16)"
    );
    assert_eq!(
        text(1, u32::MAX),
        "slot_size_bytes=4294967295 must be a multiple of 8 so successive slot starts stay \
        8-byte-aligned for the AtomicU64 seqlock view (round up to 4294967296)"
    );
}

#[test]
fn oversized_geometry_is_refused() {
    let big = u32::MAX - 7;
    let err = Region::create(&handle(), u32::MAX, big, 0, false, ByteOrder::Little).unwrap_err();
    assert_eq!(
        err.message(),
        "invalid Slate config: region size overflow (slot_count 4294967295 * (header + \
        slot_size_bytes 4294967288) exceeds usize::MAX)"
    );
    // An attacher learns of it once the segment is mapped.
    let o = Region::attach(&handle(), u32::MAX, big, 0, ByteOrder::Little).unwrap();
    match o.step(HostReply::Mapped { len: 4096 }) {
        OpenStep::Failed(TesseraSlateError::Config(m)) => {
            assert_eq!(m, "region size overflow in caller geometry");
        }
        _ => panic!("the opening did not fail so"),
    }
    let o = Region::attach(&handle(), u32::MAX, big, 0, ByteOrder::Little).unwrap();
    assert_eq!(region_text(o.step(refused(Refusal::Other, "denied"))), "attach: denied");
}

#[test]
fn creation_stamps_the_header() {
    let o = creating(false);
    match o.op() {
        HostOp::Create { name, size } => {
            assert_eq!(name, handle().shm_name());
            assert_eq!(size, 128 + 2 * 40);
        }
        other => panic!("{other:?}"),
    }
    let o = next(o.step(HostReply::Mapped { len: 208 }));
    assert!(matches!(o.op(), HostOp::ReadClock));
    let o = next(o.step(HostReply::Clock { micros: Some(42) }));
    let stamped = match o.op() {
        HostOp::Memory(MemoryOp::CopyIn { offset: 0, bytes }) => bytes,
        other => panic!("{other:?}"),
    };
    let h = GlobalHeader::from_bytes(ByteOrder::Little, &stamped);
    assert_eq!(h.magic, MAGIC);
    assert_eq!(h.format_version, 1);
    assert_eq!(h.epoch_micros, 42);
    assert_eq!(h.slot_count, 2);
    assert_eq!(h.slot_size_bytes, 8);
    assert_eq!(h.schema_hash, 5);
    assert_eq!(h.writer_seq, 0);
    assert_eq!(h.last_update_ns, 0);
    assert_eq!(h.handle_blake3, handle().full_digest());
    assert_eq!(h._reserved, [0; 40]);
    let region = ready(o.step(HostReply::Memory(MemoryReply::Done)));
    assert!(region.is_owner());
    assert_eq!(region.slot_count(), 2);
    assert_eq!(region.slot_size_bytes(), 8);
    assert_eq!(region.schema_hash(), 5);
    assert_eq!(region.epoch_micros(&stamped), 42);
    assert_eq!(region.byte_order(), ByteOrder::Little);
}

#[test]
fn existing_name_is_not_clobbered() {
    for reason in [Refusal::LinkExists, Refusal::MappingIdExists] {
        let text = region_text(creating(false).step(refused(reason, "exists")));
        assert_eq!(
            text,
            format!(
                "Slate region '{}' already exists. Refusing to clobber. Either another owner is \
                alive (do not create a second), or a prior owner crashed without unlinking; for \
                recovery, retry with force_recreate=true only after confirming no live owner \
                exists.",
                handle().shm_name()
            )
        );
    }
    assert_eq!(
        region_text(creating(true).step(refused(Refusal::Other, "no memory"))),
        "create: no memory"
    );
}

#[test]
fn force_replaces_a_stale_segment() {
    let o = next(creating(true).step(refused(Refusal::MappingIdExists, "exists")));
    // Whether the stale segment can be mapped is not asked.
    assert!(matches!(o.op(), HostOp::Unlink { name } if name == handle().shm_name()));
    // Best effort: what the removal gave does not matter.
    let o = next(o.step(refused(Refusal::Other, "denied")));
    assert!(matches!(o.op(), HostOp::Create { size: 208, .. }));
    assert_eq!(
        region_text(o.step(refused(Refusal::MappingIdExists, "exists"))),
        "create after force_recreate unlink: exists"
    );
    // Nor does it matter that the name is gone by then.
    let o = next(creating(true).step(refused(Refusal::LinkExists, "exists")));
    assert!(matches!(o.op(), HostOp::Unlink { name } if name == handle().shm_name()));
    let o = next(o.step(refused(Refusal::NotFound, "gone")));
    assert!(matches!(o.op(), HostOp::Create { size: 208, .. }));
    let o = next(o.step(HostReply::Mapped { len: 208 }));
    assert!(matches!(o.op(), HostOp::ReadClock));
}

#[test]
fn attach_accepts_the_creators_header() {
    let region = ready(verified(&header()));
    assert!(!region.is_owner());
    assert_eq!(region.slot_count(), 2);
    assert_eq!(region.slot_size_bytes(), 8);
    assert_eq!(region.schema_hash(), 5);
}

#[test]
fn attach_refuses_another_magic() {
    let mut h = header();
    h.magic = 0xBEEF;
    h.format_version = 7;
    h.slot_count = 3;
    match verified(&h) {
        OpenStep::Failed(e) => {
            assert_eq!(
                e.message(),
                "attached SHM region has incompatible header: magic mismatch: expected \
                0x4554414c53534554, found 0xbeef (not a Slate region?) (expected \
                format_version=1, found 7)"
            );
            match e {
                TesseraSlateError::HeaderMismatch { message, expected_format, found_format } => {
                    assert_eq!(
                        message,
                        "magic mismatch: expected 0x4554414c53534554, found 0xbeef (not a Slate \
                        region?)"
                    );
                    assert_eq!(expected_format, 1);
                    assert_eq!(found_format, 7);
                }
                other => panic!("{other:?}"),
            }
        }
        _ => panic!("the opening did not fail so"),
    }
    // A region that was never stamped is all zeros.
    let o = next(attaching().step(HostReply::Mapped { len: 208 }));
    let step = o.step(HostReply::Memory(MemoryReply::Bytes(vec![0; 128])));
    assert!(matches!(
        step,
        OpenStep::Failed(TesseraSlateError::HeaderMismatch {
            message,
            expected_format: 1,
            found_format: 0,
        }) if message
            == "magic mismatch: expected 0x4554414c53534554, found 0x0 (not a Slate region?)"
    ));
}

#[test]
fn attach_refuses_another_format() {
    let mut h = header();
    h.format_version = 2;
    h.slot_count = 3;
    match verified(&h) {
        OpenStep::Failed(e) => {
            assert!(matches!(
                e,
                TesseraSlateError::HeaderMismatch { expected_format: 1, found_format: 2, .. }
            ));
            assert_eq!(
                e.message(),
                "attached SHM region has incompatible header: format_version mismatch \
                (expected format_version=1, found 2)"
            );
        }
        _ => panic!("the opening did not fail so"),
    }
}

#[test]
fn attach_refuses_another_geometry_schema_or_digest() {
    let mut h = header();
    h.slot_size_bytes = 16;
    h.schema_hash = 6;
    assert!(matches!(
        verified(&h),
        OpenStep::Failed(TesseraSlateError::GeometryMismatch {
            expected_count: 2,
            found_count: 2,
            expected_size: 8,
            found_size: 16
        })
    ));
    let mut h = header();
    h.schema_hash = 6;
    h.handle_blake3[0] ^= 1;
    assert!(matches!(
        verified(&h),
        OpenStep::Failed(TesseraSlateError::SchemaHashMismatch { expected: 5, found: 6 })
    ));
    let mut h = header();
    h.handle_blake3[31] ^= 1;
    assert_eq!(
        region_text(verified(&h)),
        "handle digest mismatch on attach — the description derives a different handle than \
        the creator's; verify the description matches across processes."
    );
}

#[test]
fn unlink_is_for_the_owner_and_idempotent() {
    let mut region = created();
    match region.unlink().unwrap() {
        Some(HostOp::Unlink { name }) => assert_eq!(name, handle().shm_name()),
        other => panic!("{other:?}"),
    }
    // A failure changes nothing.
    let err = region.unlinked(refused(Refusal::Other, "denied")).unwrap_err();
    assert_eq!(
        err.message(),
        format!(
            "shared-memory region error: shm_unlink('{}') failed: denied",
            handle().shm_name()
        )
    );
    assert!(region.unlink().unwrap().is_some());
    // A name that was already gone is as good as removed.
    region.unlinked(refused(Refusal::NotFound, "gone")).unwrap();
    assert!(region.unlink().unwrap().is_none());

    let attached = ready(verified(&header()));
    match attached.unlink() {
        Err(TesseraSlateError::Region(m)) => assert_eq!(
            m,
            "Region::unlink called by an attacher (is_owner=false). Only the creator may unlink \
            the shared-memory name; drop this Region to release the mapping."
        ),
        other => panic!("{other:?}"),
    }
}

#[test]
fn slate_unlink_needs_the_sole_handle() {
    let mut slate = Slate::over(created());
    match slate.unlink(false) {
        Err(TesseraSlateError::Region(m)) => {
            assert_eq!(m, "cannot unlink while other handles to this Slate region are alive");
        }
        other => panic!("{other:?}"),
    }
    assert!(slate.unlink(true).unwrap().is_some());
    slate.unlinked(HostReply::Done).unwrap();
    assert!(slate.unlink(true).unwrap().is_none());
    assert!(slate.unlink(false).is_err());
}

#[test]
fn replies_must_fit_their_operations() {
    let load = MemoryOp::Load { offset: 0, ordering: AccessOrder::Acquire };
    assert!(MemoryReply::Value(1).answers(&load));
    assert!(!MemoryReply::Done.answers(&load));
    let copy = MemoryOp::CopyOut { offset: 0, len: 2 };
    assert!(MemoryReply::Bytes(vec![1, 2]).answers(&copy));
    assert!(!MemoryReply::Bytes(vec![1]).answers(&copy));
    assert!(HostReply::Mapped { len: 1 }.answers(&HostOp::Open { name: "x".to_string() }));
    assert!(!HostReply::Done.answers(&HostOp::ReadClock));
    assert!(HostReply::Done.answers(&HostOp::Unlink { name: "x".to_string() }));
    assert!(!HostReply::Memory(MemoryReply::Done).answers(&HostOp::Memory(copy)));
}

#[test]
fn open_goes_by_the_config() {
    let mut config = SlateConfig {
        description: "tessera-slate-test/region".to_string(),
        slot_count: 2,
        slot_size_bytes: 8,
        schema_hash: 5,
        is_owner: true,
        force_recreate: false,
    };
    assert!(matches!(
        Slate::open(config.clone()).unwrap().op(),
        HostOp::Create { name, size: 208 } if name == handle().shm_name()
    ));
    config.is_owner = false;
    config.force_recreate = true;
    assert!(matches!(
        Slate::open(config.clone()).unwrap().op(),
        HostOp::Open { name } if name == handle().shm_name()
    ));
    let o = Slate::open_in(config.clone(), &handle(), ByteOrder::Big).unwrap();
    assert!(matches!(o.op(), HostOp::Open { .. }));
    config.slot_size_bytes = 9;
    assert!(matches!(Slate::open(config), Err(TesseraSlateError::Config(_))));
    assert!(matches!(
        SlateReader::open("d", 0, 8, 0),
        Err(TesseraSlateError::Config(_))
    ));
    assert!(matches!(
        SlateReader::open("tessera-slate-test/region", 2, 8, 5).unwrap().op(),
        HostOp::Open { name } if name == handle().shm_name()
    ));
}

#[test]
fn stamps_are_cut_to_64_bits() {
    assert_eq!(now_ns(Some(17)), 17);
    assert_eq!(now_ns(Some(u64::MAX as u128 + 3)), 2);
    assert_eq!(now_ns(None), 0);
    assert_eq!(current_epoch_micros(Some(18)), 18);
    assert_eq!(current_epoch_micros(None), 0);
}

#[test]
fn messages_name_the_numbers() {
    let e = TesseraSlateError::SlotIndexOutOfRange { index: 10, slot_count: 7 };
    assert_eq!(e.message(), "slot index 10 out of range (slot_count=7)");
    let e = TesseraSlateError::Config("odd".to_string());
    assert_eq!(e.message(), "invalid Slate config: odd");
    let e = TesseraSlateError::SchemaHashMismatch { expected: u64::MAX, found: 0 };
    assert_eq!(
        e.message(),
        "schema hash mismatch: expected 0xffffffffffffffff, found 0x0000000000000000 \
        — writer and reader were built against different slot layouts"
    );
}

#[test]
fn a_removed_name_is_not_removed_again() {
    let mut region = created();
    assert!(region.removes_name_on_drop());
    region.unlinked(refused(Refusal::Other, "denied")).unwrap_err();
    assert!(region.removes_name_on_drop());
    region.unlinked(HostReply::Done).unwrap();
    assert!(!region.removes_name_on_drop());
    let attached = ready(verified(&header()));
    assert!(!attached.removes_name_on_drop());
    assert!(!Slate::over(attached).removes_name_on_drop());
}
