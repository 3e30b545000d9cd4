use tessera_slate::NamespaceHandle;

#[test]
fn same_description_derives_same_handle() {
    let a = NamespaceHandle::derive("my-app/metrics");
    let b = NamespaceHandle::derive("my-app/metrics");
    assert_eq!(a.full_digest(), b.full_digest());
    assert_eq!(a.shm_name(), b.shm_name());
    assert_eq!(a, b);
}

#[test]
fn different_descriptions_derive_different_handles() {
    let a = NamespaceHandle::derive("my-app/metrics");
    let b = NamespaceHandle::derive("my-app/other");
    assert_ne!(a.full_digest(), b.full_digest());
    assert_ne!(a.shm_name(), b.shm_name());
}

#[test]
fn shm_name_has_expected_shape() {
    let h = NamespaceHandle::derive("test");
    let name = h.shm_name();
    assert!(name.starts_with("/tessera-slate-"));
    assert_eq!(name.len(), "/tessera-slate-".len() + 32);
    let hex = &name["/tessera-slate-".len()..];
    assert!(hex.chars().all(|c| c.is_ascii_hexdigit()));
}

#[test]
fn slate_name_does_not_collide_with_ring_prefix() {
    // Same description, different prefix: a Slate and a Ring region for
    // the same description can coexist without a name collision.
    let h = NamespaceHandle::derive("shared-description");
    assert!(h.shm_name().starts_with("/tessera-slate-"));
    assert!(!h.shm_name().starts_with("/tessera-ring-"));
}

#[test]
fn digest_is_blake3() {
    let h = NamespaceHandle::derive("");
    assert_eq!(h.shm_name(), "/tessera-slate-af1349b9f5f9a1a6a0404dea36dcc949");
    assert_eq!(h.full_digest()[31], 0x62);
    let other = NamespaceHandle::derive("tessera");
    assert_eq!(&other.full_digest(), blake3::hash(b"tessera").as_bytes());
}

#[test]
fn name_spells_the_first_sixteen_bytes() {
    let mut digest = [0u8; 32];
    for i in 0..32 {
        digest[i] = (i * 17 % 256) as u8;
    }
    let h = NamespaceHandle::from_digest(digest);
    assert_eq!(h.full_digest(), digest);
    assert_eq!(h.shm_name(), "/tessera-slate-00112233445566778899aabbccddeeff");
    // Bytes behind the sixteenth do not show in the name.
    let mut later = digest;
    later[16] = 0xEE;
    assert_eq!(NamespaceHandle::from_digest(later).shm_name(), h.shm_name());
    let mut earlier = digest;
    earlier[15] = 0xEE;
    assert_ne!(NamespaceHandle::from_digest(earlier).shm_name(), h.shm_name());
}
