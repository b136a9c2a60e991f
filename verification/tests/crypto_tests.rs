use blend_safe::crypto::{
    attach_recovery_id, find_recovery_id, verify_signature_with_key, CryptoError,
};
use libsecp256k1::{recover, sign, Message, PublicKey, RecoveryId, SecretKey};

fn keypair(seed: u8) -> (SecretKey, [u8; 65]) {
    let mut sk_bytes = [0u8; 32];
    sk_bytes[31] = seed;
    let sk = SecretKey::parse(&sk_bytes).unwrap();
    let pk = PublicKey::from_secret_key(&sk);
    (sk, pk.serialize())
}

#[test]
fn recovery_finds_exactly_one_discriminator() {
    // For signatures actually produced by the known key, the recovery
    // search answers with the discriminator the signer reported, and the
    // other candidate does not recover the known key.
    for seed in 1u8..=8 {
        for fill in [0x11u8, 0x42, 0x99, 0xe7] {
            let (sk, pk) = keypair(seed);
            let digest = [fill; 32];
            let message = Message::parse(&digest);
            let (sig, recid) = sign(&message, &sk);
            let sig64 = sig.serialize();

            let found = find_recovery_id(&digest[..], &sig64[..], pk);
            assert_eq!(found, Some(recid.serialize()));

            let other = 1 - recid.serialize();
            let other_id = RecoveryId::parse(other).unwrap();
            if let Ok(k) = recover(&message, &sig, &other_id) {
                assert_ne!(k.serialize().to_vec(), pk.to_vec());
            }
        }
    }
}

#[test]
fn recovery_fails_against_a_foreign_key() {
    let (sk, _) = keypair(3);
    let (_, other_pk) = keypair(4);
    let digest = [0x5au8; 32];
    let (sig, _) = sign(&Message::parse(&digest), &sk);
    let sig64 = sig.serialize();

    assert_eq!(find_recovery_id(&digest[..], &sig64[..], other_pk), None);
    assert_eq!(
        attach_recovery_id(&digest[..], &sig64.to_vec(), other_pk),
        Err(CryptoError::NoMatchingDiscriminator)
    );
}

#[test]
fn verification_round_trip() {
    // verify(message, sign(message)) is true for the same key; a flipped
    // bit in the signature body makes it false.
    let (sk, pk) = keypair(5);
    let digest = [0x37u8; 32];
    let (sig, _) = sign(&Message::parse(&digest), &sk);
    let sig64 = sig.serialize().to_vec();

    let full = attach_recovery_id(&digest[..], &sig64, pk).unwrap();
    assert_eq!(full.len(), 65);
    assert_eq!(&full[..64], &sig64[..]);

    let msg = digest.to_vec();
    assert_eq!(verify_signature_with_key(&msg, &full, pk), Ok(true));

    let mut tampered = full.clone();
    tampered[10] ^= 1;
    assert_eq!(verify_signature_with_key(&msg, &tampered, pk), Ok(false));

    let (_, other_pk) = keypair(6);
    assert_eq!(verify_signature_with_key(&msg, &full, other_pk), Ok(false));
}

#[test]
fn verification_rejects_malformed_input() {
    let (sk, pk) = keypair(7);
    let digest = [0x21u8; 32];
    let (sig, _) = sign(&Message::parse(&digest), &sk);
    let sig64 = sig.serialize().to_vec();
    let full = attach_recovery_id(&digest[..], &sig64, pk).unwrap();

    // Wrong digest length.
    assert_eq!(
        verify_signature_with_key(&vec![0u8; 31], &full, pk),
        Err(CryptoError::MalformedInput)
    );
    // Wrong signature length.
    assert_eq!(
        verify_signature_with_key(&digest.to_vec(), &sig64, pk),
        Err(CryptoError::MalformedInput)
    );
    // A discriminator byte outside the two candidates.
    let mut bad = full.clone();
    bad[64] = 2;
    assert_eq!(
        verify_signature_with_key(&digest.to_vec(), &bad, pk),
        Err(CryptoError::MalformedInput)
    );
}
