use tessera_slate::byte_order::ByteOrder;
use tessera_slate::header::{
    region_size_bytes, slot_offset, slot_stride, slots_data_offset, GlobalHeader, SlotHeader,
    FORMAT_VERSION, LAST_UPDATE_NS_OFFSET, MAGIC, READ_RETRIES, SLOT_LENGTH_OFFSET,
    SLOT_SEQUENCE_OFFSET, SLOT_TIMESTAMP_OFFSET, WRITER_SEQ_OFFSET,
};

fn sample() -> GlobalHeader {
    GlobalHeader {
        magic: MAGIC,
        format_version: FORMAT_VERSION,
        _pad0: 0,
        epoch_micros: 7,
        slot_count: 4,
        slot_size_bytes: 64,
        schema_hash: 0,
        writer_seq: 0x0BAD_F00D,
        last_update_ns: 0x0102_0304_0506_0708,
        handle_blake3: [0; 32],
        _reserved: [0; 40],
    }
}

#[test]
fn global_header_is_128_bytes() {
    // magic 8 + format_version 4 + _pad0 4 + epoch_micros 8 + slot_count 4
    // + slot_size_bytes 4 + schema_hash 8 + writer_seq 8 + last_update_ns 8
    // + handle_blake3 32 + _reserved 40 = 128.
    assert_eq!(GlobalHeader::SIZE, 128);
    assert_eq!(sample().to_bytes(ByteOrder::Little).len(), 128);
}

#[test]
fn slot_header_is_32_bytes() {
    // sequence 8 + length 4 + _pad0 4 + timestamp_nanos 8 + _reserved 8 = 32.
    assert_eq!(SlotHeader::SIZE, 32);
}

#[test]
fn magic_is_ascii_marker() {
    assert_eq!(&MAGIC.to_le_bytes(), b"TESSLATE");
}

#[test]
fn global_atomic_offsets_match_fields() {
    let h = sample();
    let bytes = h.to_bytes(ByteOrder::Little);
    let ws = u64::from_le_bytes(
        bytes[WRITER_SEQ_OFFSET..WRITER_SEQ_OFFSET + 8].try_into().unwrap(),
    );
    let lu = u64::from_le_bytes(
        bytes[LAST_UPDATE_NS_OFFSET..LAST_UPDATE_NS_OFFSET + 8].try_into().unwrap(),
    );
    assert_eq!(ws, 0x0BAD_F00D);
    assert_eq!(lu, 0x0102_0304_0506_0708);
}

#[test]
fn slot_meta_offsets_match_fields() {
    let s = SlotHeader {
        sequence: 2,
        length: 0x1234,
        _pad0: 0,
        timestamp_nanos: 0xAABB_CCDD,
        _reserved: [0; 8],
    };
    let bytes = s.to_bytes(ByteOrder::Little);
    assert_eq!(bytes.len(), 32);
    let len = u32::from_le_bytes(
        bytes[SLOT_LENGTH_OFFSET..SLOT_LENGTH_OFFSET + 4].try_into().unwrap(),
    );
    let ts = u64::from_le_bytes(
        bytes[SLOT_TIMESTAMP_OFFSET..SLOT_TIMESTAMP_OFFSET + 8].try_into().unwrap(),
    );
    let seq = u64::from_le_bytes(
        bytes[SLOT_SEQUENCE_OFFSET..SLOT_SEQUENCE_OFFSET + 8].try_into().unwrap(),
    );
    assert_eq!(len, 0x1234);
    assert_eq!(ts, 0xAABB_CCDD);
    assert_eq!(seq, 2);
}

#[test]
fn region_size_is_header_plus_slots() {
    assert_eq!(region_size_bytes(4, 64), Some(128 + 4 * (32 + 64)));
    assert_eq!(region_size_bytes(1, 8), Some(128 + (32 + 8)));
}

#[test]
fn region_size_overflow_is_none() {
    assert_eq!(region_size_bytes(u32::MAX, u32::MAX), None);
}

#[test]
fn slots_follow_the_header_and_one_another() {
    assert_eq!(slots_data_offset(), 128);
    assert_eq!(slot_stride(64), 96);
    assert_eq!(slot_offset(0, 64), 128);
    assert_eq!(slot_offset(3, 64), 128 + 3 * 96);
    assert_eq!(slot_offset(3, 64) % 8, 0);
    assert_eq!(READ_RETRIES, 3);
}

#[test]
fn header_survives_both_byte_orders() {
    let mut h = sample();
    h.schema_hash = 0xABCD;
    h.handle_blake3[31] = 9;
    h._reserved[0] = 5;
    for order in [ByteOrder::Little, ByteOrder::Big] {
        let back = GlobalHeader::from_bytes(order, &h.to_bytes(order));
        assert_eq!(back.magic, MAGIC);
        assert_eq!(back.format_version, 1);
        assert_eq!(back._pad0, 0);
        assert_eq!(back.epoch_micros, 7);
        assert_eq!(back.slot_count, 4);
        assert_eq!(back.slot_size_bytes, 64);
        assert_eq!(back.schema_hash, 0xABCD);
        assert_eq!(back.writer_seq, 0x0BAD_F00D);
        assert_eq!(back.last_update_ns, 0x0102_0304_0506_0708);
        assert_eq!(back.handle_blake3, h.handle_blake3);
        assert_eq!(back._reserved, h._reserved);
    }
}

#[test]
fn numbers_are_spelled_in_their_order() {
    assert_eq!(ByteOrder::Little.encode(0x0102, 4), vec![2, 1, 0, 0]);
    assert_eq!(ByteOrder::Big.encode(0x0102, 4), vec![0, 0, 1, 2]);
    assert_eq!(ByteOrder::Little.decode(&[2, 1, 0, 0]), 0x0102);
    assert_eq!(ByteOrder::Big.decode(&[0, 0, 1, 2]), 0x0102);
    assert_eq!(ByteOrder::Big.decode(&u64::MAX.to_be_bytes()), u64::MAX);
    assert_eq!(ByteOrder::Little.decode(&[]), 0);
}

#[test]
fn native_order_is_the_machines() {
    let n: u64 = 0x0102_0304_0506_0708;
    assert_eq!(ByteOrder::native().encode(n, 8), n.to_ne_bytes().to_vec());
    assert_eq!(ByteOrder::of(&[1, 0]), ByteOrder::Little);
    assert_eq!(ByteOrder::of(&[0, 1]), ByteOrder::Big);
}
