use inertia::crypto::keys::KeyPair;

#[test]
fn key_bytes_round_trip() {
    let k = KeyPair::generate();
    let bytes = k.to_bytes();
    assert_eq!(&bytes[..32], &k.secret());
    assert_eq!(&bytes[32..], &k.public());
    let k2 = KeyPair::from_bytes(&bytes).unwrap();
    assert_eq!(k2.secret(), k.secret());
    assert_eq!(k2.public(), k.public());
}

#[test]
fn wrong_length_is_refused() {
    assert!(KeyPair::from_bytes(&[0u8; 63]).is_none());
    assert!(KeyPair::from_bytes(&[]).is_none());
}

#[test]
fn public_key_matches_dalek() {
    let k = KeyPair::generate();
    let secret = ed25519_dalek::SecretKey::from_bytes(&k.secret()).unwrap();
    let public = ed25519_dalek::PublicKey::from(&secret);
    assert_eq!(public.to_bytes(), k.public());
}

#[test]
fn signatures_are_deterministic() {
    let k = KeyPair::generate();
    assert_eq!(k.sign(b"m"), k.sign(b"m"));
    assert_ne!(k.sign(b"m"), k.sign(b"n"));
}
