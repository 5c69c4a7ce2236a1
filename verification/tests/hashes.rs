use exile_ggpk::hashes::{fnv1a64, murmur_hash64a};

#[test]
fn murmur_known_values() {
    assert_eq!(murmur_hash64a(b""), 0xf42a94e69cff42fe);
    assert_eq!(murmur_hash64a(b"a"), 0xf8d232a19e90f23c);
    assert_eq!(murmur_hash64a(b"Art/weapon.dds"), 0x71d2713acfbab7ea);
    assert_eq!(murmur_hash64a(b"art/weapon.dds"), 0xe7e04a3e0b05e552);
}

#[test]
fn fnv_known_values() {
    assert_eq!(fnv1a64(b""), 0xcbf29ce484222325);
    assert_eq!(fnv1a64(b"a"), 0xaf63dc4c8601ec8c);
    assert_eq!(fnv1a64(b"Art/weapon.dds"), 0xfcea853a5bb6dfc0);
    assert_eq!(fnv1a64(b"art/weapon.dds"), 0x9fdbeed5a78e2260);
}
