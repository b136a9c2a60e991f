use blend_safe::ids::SignerId;
use blend_safe::registry::{Registry, ServiceError, SignStart};
use blend_safe::signer::{Signer, SigningError, TestSigner};

struct FailingSigner;

impl Signer for FailingSigner {
    fn sign(&self, _msg: Vec<u8>) -> Result<Vec<u8>, SigningError> {
        Err(SigningError::InvalidSignature)
    }
}

fn signer_a() -> SignerId {
    SignerId::from_text("2chl6-4hpzw-vqaaa-aaaaa-c").unwrap()
}

fn signer_b() -> SignerId {
    SignerId::from_text("rrkah-fqaaa-aaaaa-aaaaq-cai").unwrap()
}

fn anonymous() -> SignerId {
    SignerId::from_text("2vxsx-fae").unwrap()
}

fn two_signer_wallet() -> (Registry, String) {
    let mut registry = Registry::new();
    let id = "w1".to_string();
    registry
        .create_wallet(id.clone(), vec![signer_a(), signer_b()], 2)
        .unwrap();
    (registry, id)
}

#[test]
fn quorum_cycle_dispatches_and_consumes() {
    // Wallet with signers {A, B}, threshold 2: propose, watch the quorum
    // build, sign and observe the entry consumed.
    let (mut registry, id) = two_signer_wallet();
    let msg = "010203".to_string();

    registry.propose(&id, &msg, signer_a()).unwrap();
    assert!(!registry.can_sign(&id, &msg));

    assert_eq!(registry.approve(&id, &msg, signer_b()), Ok(1));
    assert!(!registry.can_sign(&id, &msg));

    assert_eq!(registry.approve(&id, &msg, signer_a()), Ok(2));
    assert!(registry.can_sign(&id, &msg));

    let signature = registry.sign(&id, &msg, signer_a(), &TestSigner).unwrap();
    assert_eq!(signature, "".to_string());

    assert!(!registry.can_sign(&id, &msg));
    let proposed = registry.get_proposed_messages(&id).unwrap();
    assert!(!proposed.contains(&msg));
}

#[test]
fn threshold_command_lowers_quorum() {
    // Governance command approved by the current quorum of two lowers
    // the threshold to one; a later message needs a single approval.
    let (mut registry, id) = two_signer_wallet();

    let cmd = registry.set_threshold(&id, 1, signer_a()).unwrap();
    registry.approve(&id, &cmd, signer_a()).unwrap();
    registry.approve(&id, &cmd, signer_b()).unwrap();
    assert!(registry.can_sign(&id, &cmd));

    let signature = registry.sign(&id, &cmd, signer_a(), &TestSigner).unwrap();
    assert_eq!(signature, "".to_string());
    assert_eq!(
        registry.get_wallet(&id).unwrap().get_default_threshold(),
        1
    );

    let msg = "0badc0de".to_string();
    registry.propose(&id, &msg, signer_b()).unwrap();
    assert!(!registry.can_sign(&id, &msg));
    registry.approve(&id, &msg, signer_b()).unwrap();
    assert!(registry.can_sign(&id, &msg));
}

#[test]
fn add_signer_command_updates_wallet_and_index() {
    // ADD_SIGNER reaching quorum adds the identity to the signer set and
    // to the reverse index.
    let (mut registry, id) = two_signer_wallet();
    let newcomer = anonymous();

    assert_eq!(registry.get_wallets_for_principal(&newcomer).len(), 0);

    let cmd = registry.add_signer(&id, &newcomer, signer_a()).unwrap();
    registry.approve(&id, &cmd, signer_a()).unwrap();
    registry.approve(&id, &cmd, signer_b()).unwrap();
    let signature = registry.sign(&id, &cmd, signer_a(), &TestSigner).unwrap();
    assert_eq!(signature, "".to_string());

    let wallet = registry.get_wallet(&id).unwrap();
    assert!(wallet.has_signer(newcomer.clone()));
    assert_eq!(registry.get_wallets_for_principal(&newcomer), vec![id]);
}

#[test]
fn remove_signer_command_updates_wallet_and_index() {
    let (mut registry, id) = two_signer_wallet();

    // Lower the threshold first so one approval suffices afterwards.
    let lower = registry.set_threshold(&id, 1, signer_a()).unwrap();
    registry.approve(&id, &lower, signer_a()).unwrap();
    registry.approve(&id, &lower, signer_b()).unwrap();
    registry.sign(&id, &lower, signer_a(), &TestSigner).unwrap();

    let cmd = registry.remove_signer(&id, &signer_b(), signer_a()).unwrap();
    registry.approve(&id, &cmd, signer_a()).unwrap();
    registry.sign(&id, &cmd, signer_a(), &TestSigner).unwrap();

    let wallet = registry.get_wallet(&id).unwrap();
    assert!(!wallet.has_signer(signer_b()));
    assert!(wallet.has_signer(signer_a()));
    assert_eq!(registry.get_wallets_for_principal(&signer_b()).len(), 0);
    assert_eq!(
        registry.get_wallets_for_principal(&signer_a()),
        vec![id.clone()]
    );
}

#[test]
fn removing_the_caller_leaves_the_command_queued() {
    // Consumption runs as the caller after the command took effect.  A
    // caller that removes itself is no longer a signer when the entry is
    // purged, so the purge is ignored and the command stays queued.
    let (mut registry, id) = two_signer_wallet();

    let lower = registry.set_threshold(&id, 1, signer_a()).unwrap();
    registry.approve(&id, &lower, signer_a()).unwrap();
    registry.approve(&id, &lower, signer_b()).unwrap();
    registry.sign(&id, &lower, signer_a(), &TestSigner).unwrap();

    let cmd = registry.remove_signer(&id, &signer_a(), signer_a()).unwrap();
    registry.approve(&id, &cmd, signer_a()).unwrap();
    let result = registry.sign(&id, &cmd, signer_a(), &TestSigner);
    assert_eq!(result, Ok("".to_string()));

    let wallet = registry.get_wallet(&id).unwrap();
    assert!(!wallet.has_signer(signer_a()));
    assert!(registry.get_proposed_messages(&id).unwrap().contains(&cmd));
}

#[test]
fn duplicate_wallet_id_rejected_without_change() {
    // A second createWallet under a taken identifier fails and leaves
    // the existing wallet as it was.
    let (mut registry, id) = two_signer_wallet();
    registry.propose(&id, &"ff".to_string(), signer_a()).unwrap();

    let result = registry.create_wallet(id.clone(), vec![anonymous()], 1);
    assert_eq!(result, Err(ServiceError::WalletAlreadyExists));

    let wallet = registry.get_wallet(&id).unwrap();
    assert_eq!(wallet.get_default_threshold(), 2);
    assert!(wallet.has_signer(signer_a()));
    assert!(wallet.has_signer(signer_b()));
    assert!(!wallet.has_signer(anonymous()));
    let proposed = registry.get_proposed_messages(&id).unwrap();
    assert_eq!(proposed, vec!["ff".to_string()]);
}

#[test]
fn create_wallet_validates_threshold() {
    let mut registry = Registry::new();
    let result = registry.create_wallet("w9".to_string(), vec![signer_a()], 2);
    assert_eq!(result, Err(ServiceError::SignersNotMatchThreshold));
    assert!(registry.get_wallet(&"w9".to_string()).is_none());
    assert_eq!(registry.get_wallets_for_principal(&signer_a()).len(), 0);
}

#[test]
fn invalid_hex_is_rejected_everywhere() {
    let (mut registry, id) = two_signer_wallet();
    let bad = "zz".to_string();
    assert_eq!(
        registry.propose(&id, &bad, signer_a()),
        Err(ServiceError::InvalidMessage)
    );
    assert_eq!(
        registry.approve(&id, &bad, signer_a()),
        Err(ServiceError::InvalidMessage)
    );
    assert!(!registry.can_sign(&id, &bad));
    // An odd number of digits is as malformed as a bad character.
    assert_eq!(
        registry.propose(&id, &"abc".to_string(), signer_a()),
        Err(ServiceError::InvalidMessage)
    );
}

#[test]
fn unknown_wallet_is_reported() {
    let mut registry = Registry::new();
    let id = "nowhere".to_string();
    let msg = "00".to_string();
    assert_eq!(
        registry.propose(&id, &msg, signer_a()),
        Err(ServiceError::WalletNotFound)
    );
    assert_eq!(
        registry.approve(&id, &msg, signer_a()),
        Err(ServiceError::WalletNotFound)
    );
    assert!(!registry.can_sign(&id, &msg));
    assert_eq!(
        registry.get_messages_to_sign(&id),
        Err(ServiceError::WalletNotFound)
    );
    assert!(registry.get_wallet(&id).is_none());
}

#[test]
fn sign_requires_quorum() {
    let (mut registry, id) = two_signer_wallet();
    let msg = "0a0b".to_string();
    registry.propose(&id, &msg, signer_a()).unwrap();
    registry.approve(&id, &msg, signer_a()).unwrap();
    let result = registry.sign(&id, &msg, signer_a(), &TestSigner);
    assert_eq!(result, Err(ServiceError::CannotSign));
    // The failed attempt consumed nothing.
    assert!(registry
        .get_proposed_messages(&id)
        .unwrap()
        .contains(&msg));
}

#[test]
fn concurrent_dispatch_is_rejected() {
    let (mut registry, id) = two_signer_wallet();
    let msg = "0c0d".to_string();
    registry.propose(&id, &msg, signer_a()).unwrap();
    registry.approve(&id, &msg, signer_a()).unwrap();
    registry.approve(&id, &msg, signer_b()).unwrap();

    let started = registry.start_sign(&id, &msg, signer_a()).unwrap();
    match started {
        SignStart::Dispatch(bytes) => assert_eq!(bytes, vec![0x0c, 0x0d]),
        SignStart::CommandApplied(_) => panic!("a payload message is not a command"),
    }
    // The same message cannot be dispatched again while in flight.
    let again = registry.start_sign(&id, &msg, signer_a());
    assert!(matches!(again, Err(ServiceError::SigningInProgress)));

    // Finishing the cycle consumes the entry, success or not.
    let result = registry.finish_sign(&id, &msg, signer_a(), Ok(vec![0xAA, 0xBB]));
    assert_eq!(result, Ok("aabb".to_string()));
    assert!(!registry
        .get_proposed_messages(&id)
        .unwrap()
        .contains(&msg));
}

#[test]
fn failed_signing_still_consumes() {
    // Fire-once semantics: the backend fails, the caller sees the error,
    // and the queue entry is gone.
    let (mut registry, id) = two_signer_wallet();
    let msg = "0e0f".to_string();
    registry.propose(&id, &msg, signer_a()).unwrap();
    registry.approve(&id, &msg, signer_a()).unwrap();
    registry.approve(&id, &msg, signer_b()).unwrap();

    let result = registry.sign(&id, &msg, signer_a(), &FailingSigner);
    assert_eq!(result, Err(ServiceError::SigningFailed));
    assert!(!registry
        .get_proposed_messages(&id)
        .unwrap()
        .contains(&msg));
}

#[test]
fn malformed_command_argument_is_reported_and_consumed() {
    // "ADD_SIGNER::notaprincipal" in hex; quorum reached, then the
    // argument fails to parse: the command is reported and the message
    // still consumed.
    let (mut registry, id) = two_signer_wallet();
    let msg = hex::encode("ADD_SIGNER::notaprincipal");
    registry.propose(&id, &msg, signer_a()).unwrap();
    registry.approve(&id, &msg, signer_a()).unwrap();
    registry.approve(&id, &msg, signer_b()).unwrap();

    let result = registry.sign(&id, &msg, signer_a(), &TestSigner);
    assert_eq!(result, Err(ServiceError::MalformedCommand));
    assert!(!registry
        .get_proposed_messages(&id)
        .unwrap()
        .contains(&msg));
    // The signer set is untouched.
    let wallet = registry.get_wallet(&id).unwrap();
    assert_eq!(wallet.get_signers().len(), 2);
}

#[test]
fn oversized_threshold_command_is_reported_and_consumed() {
    let (mut registry, id) = two_signer_wallet();
    let cmd = registry.set_threshold(&id, 9, signer_a()).unwrap();
    registry.approve(&id, &cmd, signer_a()).unwrap();
    registry.approve(&id, &cmd, signer_b()).unwrap();

    let result = registry.sign(&id, &cmd, signer_a(), &TestSigner);
    assert_eq!(result, Err(ServiceError::SignersNotMatchThreshold));
    let wallet = registry.get_wallet(&id).unwrap();
    assert_eq!(wallet.get_default_threshold(), 2);
    assert!(!registry
        .get_proposed_messages(&id)
        .unwrap()
        .contains(&cmd));
}

#[test]
fn command_text_round_trips_through_hex() {
    // The proposal helpers publish the command as hexadecimal text; the
    // encoding and the principal's canonical form both round-trip.
    let (mut registry, id) = two_signer_wallet();
    let cmd = registry.add_signer(&id, &anonymous(), signer_a()).unwrap();
    let decoded = hex::decode(&cmd).unwrap();
    assert_eq!(decoded, b"ADD_SIGNER::2vxsx-fae".to_vec());

    let t = registry.set_threshold(&id, 250, signer_a()).unwrap();
    assert_eq!(hex::decode(&t).unwrap(), b"SET_THRESHOLD::250".to_vec());
}

#[test]
fn metadata_flows_through_the_registry() {
    let (mut registry, id) = two_signer_wallet();
    let msg = "c001".to_string();
    assert_eq!(
        registry.add_metadata(&id, &msg, "note".to_string(), signer_a()),
        Err(ServiceError::MsgNotQueued)
    );
    registry
        .propose_with_metadata(&id, &msg, "note".to_string(), signer_a())
        .unwrap();
    assert_eq!(
        registry.get_metadata(&id, &msg, signer_a()),
        Ok("note".to_string())
    );
    // Metadata is write-once.
    assert_eq!(
        registry.add_metadata(&id, &msg, "other".to_string(), signer_a()),
        Err(ServiceError::MetadataAlreadyExists)
    );
    // A non-signer is told nothing.
    assert_eq!(
        registry.get_metadata(&id, &msg, anonymous()),
        Err(ServiceError::MetadataNotFound)
    );
    // Consumption purges the metadata with the entry.
    registry.approve(&id, &msg, signer_a()).unwrap();
    registry.approve(&id, &msg, signer_b()).unwrap();
    registry.sign(&id, &msg, signer_a(), &TestSigner).unwrap();
    assert_eq!(
        registry.get_metadata(&id, &msg, signer_a()),
        Err(ServiceError::MetadataNotFound)
    );
}

#[test]
fn non_signer_cannot_propose_or_approve() {
    let (mut registry, id) = two_signer_wallet();
    let msg = "1234".to_string();
    assert_eq!(
        registry.propose(&id, &msg, anonymous()),
        Err(ServiceError::NotASigner)
    );
    registry.propose(&id, &msg, signer_a()).unwrap();
    assert_eq!(
        registry.approve(&id, &msg, anonymous()),
        Err(ServiceError::NotASigner)
    );
    assert_eq!(
        registry.approve(&id, &msg, signer_a()),
        Ok(1)
    );
}

#[test]
fn messages_round_trip_through_hex() {
    let (mut registry, id) = two_signer_wallet();
    let msg = "beef".to_string();
    registry.propose(&id, &msg, signer_a()).unwrap();
    let proposed = registry.get_proposed_messages(&id).unwrap();
    assert_eq!(proposed, vec!["beef".to_string()]);

    registry.approve(&id, &msg, signer_a()).unwrap();
    registry.approve(&id, &msg, signer_b()).unwrap();
    let eligible = registry.get_messages_to_sign(&id).unwrap();
    assert_eq!(eligible, vec!["beef".to_string()]);

    let with_signers = registry.get_messages_with_signers(&id).unwrap();
    assert_eq!(with_signers.len(), 1);
    assert_eq!(with_signers[0].0, "beef".to_string());
    assert_eq!(with_signers[0].1, vec![signer_a(), signer_b()]);
}

#[test]
fn anonymous_principal_has_known_bytes() {
    let id = anonymous();
    assert_eq!(id.as_bytes(), &vec![4u8]);
    assert_eq!(
        SignerId::from_bytes(vec![4u8]).unwrap(),
        id
    );
    assert!(SignerId::from_bytes(vec![0u8; 30]).is_none());
    assert!(SignerId::from_text("not a principal").is_none());
}
