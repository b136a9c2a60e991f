use blend_safe::ids::SignerId;
use blend_safe::wallet::{Wallet, WalletError};

fn signer(text: &str) -> SignerId {
    SignerId::from_text(text).unwrap()
}

#[test]
fn test_default_wallet() {
    let wallet = Wallet::default();
    assert_eq!(wallet.get_signers().len(), 0);
    assert_eq!(wallet.get_default_threshold(), 0);
}

#[test]
fn test_add_remove_signer() {
    let mut wallet = Wallet::default();

    let signer1 = signer("2chl6-4hpzw-vqaaa-aaaaa-c");
    let signer2 = signer("rrkah-fqaaa-aaaaa-aaaaq-cai");

    wallet.add_signer(signer1.clone());
    wallet.add_signer(signer2.clone());

    let signers = wallet.get_signers();
    assert_eq!(signers.len(), 2);
    assert!(signers.contains(&signer1));
    assert!(signers.contains(&signer2));

    wallet.remove_signer(signer1.clone());
    let signers = wallet.get_signers();
    assert_eq!(signers.len(), 1);
    assert!(!signers.contains(&signer1));
    assert!(signers.contains(&signer2));
}

#[test]
fn test_set_get_default_threshold() {
    let mut wallet = Wallet::default();

    assert_eq!(wallet.get_default_threshold(), 0);

    wallet.add_signer(signer("2chl6-4hpzw-vqaaa-aaaaa-c"));
    let _ = wallet.set_default_threshold(1);
    assert_eq!(wallet.get_default_threshold(), 1);
    assert_eq!(
        wallet.set_default_threshold(2),
        Err(WalletError::NotEnoughSigners)
    );
}

#[test]
fn test_propose_message_valid_signature() {
    let mut wallet = Wallet::default();
    let signer = signer("2chl6-4hpzw-vqaaa-aaaaa-c");
    wallet.add_signer(signer.clone());

    let msg = vec![1, 2, 3];
    let result = wallet.propose_message(signer, msg);

    assert!(result.is_ok());
}

#[test]
fn test_propose_message_invalid_signature() {
    let mut wallet = Wallet::default();
    let signer = signer("2chl6-4hpzw-vqaaa-aaaaa-c");
    // Don't add the signer to the wallet.

    let msg = vec![1, 2, 3];
    let result = wallet.propose_message(signer, msg.clone());

    assert_eq!(result.err(), Some(WalletError::InvalidSignature));
}

#[test]
fn test_propose_message_duplicate_message() {
    let mut wallet = Wallet::default();
    let signer = signer("2chl6-4hpzw-vqaaa-aaaaa-c");
    wallet.add_signer(signer.clone());

    let msg = vec![1, 2, 3];
    let _ = wallet.propose_message(signer.clone(), msg.clone());

    // Try proposing the same message again.
    let result = wallet.propose_message(signer, msg);

    assert_eq!(result.err(), Some(WalletError::MsgAlreadyQueued));
}

#[test]
fn test_can_sign_threshold_not_met() {
    let mut wallet = Wallet::default();

    let signer = signer("2chl6-4hpzw-vqaaa-aaaaa-c");
    wallet.add_signer(signer.clone());
    let _ = wallet.set_default_threshold(1);

    let msg = vec![1, 2, 3];
    let _ = wallet.propose_message(signer.clone(), msg.clone());

    // Threshold is not met, so cannot sign.
    let can_sign = wallet.can_sign(&msg.clone());

    assert_eq!(can_sign, false);
}

#[test]
fn test_can_sign_message_not_queued() {
    let mut wallet = Wallet::default();
    let signer = signer("2chl6-4hpzw-vqaaa-aaaaa-c");
    wallet.add_signer(signer.clone());

    let msg = vec![1, 2, 3];

    // Message is not in the queue, so cannot sign.
    let can_sign = wallet.can_sign(&msg.clone());

    assert_eq!(can_sign, false);
}

#[test]
fn test_approve_valid_message() {
    let mut wallet = Wallet::default();
    let signer = signer("2chl6-4hpzw-vqaaa-aaaaa-c");
    wallet.add_signer(signer.clone());
    let _ = wallet.set_default_threshold(1);

    let msg = vec![1, 2, 3];
    wallet.propose_message(signer.clone(), msg.clone()).unwrap();

    assert_eq!(wallet.can_sign(&msg), false);
    let result = wallet.approve(msg.clone(), signer);

    assert!(result.is_ok());
    assert_eq!(wallet.can_sign(&msg), true);
}

#[test]
fn test_approve_invalid_message() {
    let mut wallet = Wallet::default();
    let signer = signer("2chl6-4hpzw-vqaaa-aaaaa-c");
    wallet.add_signer(signer.clone());

    let msg = vec![1, 2, 3];

    let result = wallet.approve(msg.clone(), signer);

    assert_eq!(result.err(), Some(WalletError::MsgNotQueued));
}

#[test]
fn test_approve_not_signer() {
    let mut wallet = Wallet::default();
    let signer1 = signer("2chl6-4hpzw-vqaaa-aaaaa-c");
    let signer2 = signer("rrkah-fqaaa-aaaaa-aaaaq-cai");
    let _ = wallet.set_default_threshold(1);
    wallet.add_signer(signer1.clone());

    let msg = vec![1, 2, 3];
    wallet
        .propose_message(signer1.clone(), msg.clone())
        .unwrap();

    let result = wallet.approve(msg.clone(), signer2);

    assert_eq!(result.err(), Some(WalletError::InvalidSignature));
}

#[test]
fn test_has_signer() {
    let mut wallet = Wallet::default();
    let signer1 = signer("2chl6-4hpzw-vqaaa-aaaaa-c");
    let signer2 = signer("rrkah-fqaaa-aaaaa-aaaaq-cai");
    wallet.add_signer(signer1.clone());

    assert_eq!(wallet.has_signer(signer1.clone()), true);
    assert_eq!(wallet.has_signer(signer2.clone()), false);
}

#[test]
fn test_get_messages() {
    let mut wallet = Wallet::default();
    let signer1 = signer("2chl6-4hpzw-vqaaa-aaaaa-c");
    let signer2 = signer("rrkah-fqaaa-aaaaa-aaaaq-cai");
    wallet.add_signer(signer1.clone());
    wallet.add_signer(signer2.clone());
    let _ = wallet.set_default_threshold(1);

    let msg1 = vec![1, 2, 3];
    let msg2 = vec![4, 5, 6];
    let msg3 = vec![7, 8, 9];
    wallet
        .propose_message(signer1.clone(), msg1.clone())
        .unwrap();
    wallet
        .propose_message(signer2.clone(), msg2.clone())
        .unwrap();
    wallet
        .propose_message(signer2.clone(), msg3.clone())
        .unwrap();

    wallet.approve(msg1.clone(), signer1.clone()).unwrap();
    wallet.approve(msg2.clone(), signer2.clone()).unwrap();

    let messages_to_sign = wallet.get_messages_to_sign();

    assert_eq!(messages_to_sign.len(), 2);
    assert!(messages_to_sign.contains(&msg1));
    assert!(messages_to_sign.contains(&msg2));

    let proposed_messages = wallet.get_proposed_messages();

    assert_eq!(proposed_messages.len(), 3);

    let all_messages_with_signers = wallet.get_messages_with_signers();

    assert_eq!(all_messages_with_signers.len(), 3);
    assert!(all_messages_with_signers.contains(&(msg1.clone(), vec![signer1.clone()])));
    assert!(all_messages_with_signers.contains(&(msg2.clone(), vec![signer2.clone()])));
    assert!(all_messages_with_signers.contains(&(msg3.clone(), vec![])));
}

#[test]
fn test_add_metadata_valid() {
    let mut wallet = Wallet::default();
    let signer = signer("2chl6-4hpzw-vqaaa-aaaaa-c");
    wallet.add_signer(signer.clone());

    let msg = vec![1, 2, 3];
    let _ = wallet.propose_message(signer.clone(), msg.clone());

    let result = wallet.add_metadata(msg.clone(), "metadata".to_string(), signer.clone());

    assert!(result.is_ok());
    assert_eq!(
        wallet.get_metadata(msg.clone(), signer),
        Some(&"metadata".to_string())
    );
}

#[test]
fn test_add_metadata_invalid_message() {
    let mut wallet = Wallet::default();
    let signer = signer("2chl6-4hpzw-vqaaa-aaaaa-c");
    wallet.add_signer(signer.clone());

    let msg = vec![1, 2, 3];

    let result = wallet.add_metadata(msg.clone(), "metadata".to_string(), signer.clone());

    assert_eq!(
        result.err(),
        Some("Cannot add metadata: Message not found.".to_string())
    );
}

#[test]
fn test_add_metadata_invalid_signer() {
    let mut wallet = Wallet::default();
    let signer = signer("2chl6-4hpzw-vqaaa-aaaaa-c");
    let invalid_signer = SignerId::from_text("rrkah-fqaaa-aaaaa-aaaaq-cai").unwrap();
    wallet.add_signer(signer.clone());

    let msg = vec![1, 2, 3];
    let _ = wallet.propose_message(signer.clone(), msg.clone());

    let result = wallet.add_metadata(msg.clone(), "metadata".to_string(), invalid_signer.clone());

    assert_eq!(
        result.err(),
        Some("Cannot add metadata: No signer.".to_string())
    );
}

#[test]
fn test_get_metadata_exists() {
    let mut wallet = Wallet::default();
    let signer = signer("2chl6-4hpzw-vqaaa-aaaaa-c");
    wallet.add_signer(signer.clone());

    let msg = vec![1, 2, 3];
    let _ = wallet.propose_message(signer.clone(), msg.clone());
    let _ = wallet.add_metadata(msg.clone(), "metadata".to_string(), signer.clone());

    let result = wallet.get_metadata(msg.clone(), signer);

    assert_eq!(result, Some(&"metadata".to_string()));
}

#[test]
fn test_get_metadata_not_exists() {
    let mut wallet = Wallet::default();
    let signer = signer("2chl6-4hpzw-vqaaa-aaaaa-c");
    wallet.add_signer(signer.clone());

    let msg = vec![1, 2, 3];
    let _ = wallet.propose_message(signer.clone(), msg.clone());

    let result = wallet.get_metadata(msg.clone(), signer);

    assert_eq!(result, None);
}

#[test]
fn test_get_metadata_returns_none_if_not_signer() {
    let mut wallet = Wallet::default();
    let signer = signer("2chl6-4hpzw-vqaaa-aaaaa-c");
    let invalid_signer = SignerId::from_text("rrkah-fqaaa-aaaaa-aaaaq-cai").unwrap();
    wallet.add_signer(signer.clone());

    let msg = vec![1, 2, 3];
    let _ = wallet.propose_message(signer.clone(), msg.clone());
    let _ = wallet.add_metadata(msg.clone(), "metadata".to_string(), signer.clone());

    let result = wallet.get_metadata(msg.clone(), invalid_signer.clone());

    assert_eq!(result, None);
}

#[test]
fn test_add_metadata_only_once() {
    let mut wallet = Wallet::default();
    let signer = signer("2chl6-4hpzw-vqaaa-aaaaa-c");
    wallet.add_signer(signer.clone());

    let msg = vec![1, 2, 3];
    let _ = wallet.propose_message(signer.clone(), msg.clone());

    let result = wallet.add_metadata(msg.clone(), "metadata".to_string(), signer.clone());
    assert!(result.is_ok());
    assert_eq!(
        wallet.get_metadata(msg.clone(), signer.clone()),
        Some(&"metadata".to_string())
    );

    // Try to add metadata again to the same message
    let result = wallet.add_metadata(msg.clone(), "new metadata".to_string(), signer.clone());
    assert_eq!(
        result.err(),
        Some("Metadata already exists for this message".to_string())
    );
}

#[test]
fn test_remove_message_and_metadata() {
    let mut wallet = Wallet::default();
    let signer = signer("2chl6-4hpzw-vqaaa-aaaaa-c");
    wallet.add_signer(signer.clone());

    let msg = vec![1, 2, 3];
    let _ = wallet.propose_message(signer.clone(), msg.clone());
    let _ = wallet.add_metadata(msg.clone(), "metadata".to_string(), signer.clone());

    assert_eq!(
        wallet.get_metadata(msg.clone(), signer.clone()),
        Some(&"metadata".to_string())
    );

    let result = wallet.remove_message_and_metadata(msg.clone(), signer.clone());

    assert!(result.is_ok());
    assert_eq!(wallet.get_metadata(msg.clone(), signer), None);
    assert!(!wallet.get_proposed_messages().contains(&msg));
}
