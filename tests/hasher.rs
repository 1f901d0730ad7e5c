use pasta_curves::Hasher;

#[test]
fn hasher_keeps_its_domain_prefix() {
    let h: Hasher<'_, u8, u16, u32> = Hasher::new("z.cash:test");
    assert_eq!(h.domain_prefix(), "z.cash:test");
}

#[test]
fn hasher_copies_keep_the_prefix() {
    let h: Hasher<'_, u8, u16, u32> = Hasher::new("z.cash:example_pedersen_commitment");
    let copy = h;
    let cloned = h.clone();
    assert_eq!(copy.domain_prefix(), h.domain_prefix());
    assert_eq!(cloned.domain_prefix(), "z.cash:example_pedersen_commitment");
}

#[test]
fn hasher_with_empty_prefix() {
    let h: Hasher<'_, u8, u8, u8> = Hasher::new("");
    assert_eq!(h.domain_prefix(), "");
}

#[test]
fn hashers_with_different_prefixes_differ() {
    let a: Hasher<'_, u8, u8, u8> = Hasher::new("z.cash:test");
    let b: Hasher<'_, u8, u8, u8> = Hasher::new("z.cash:other");
    assert_ne!(a.domain_prefix(), b.domain_prefix());
}
