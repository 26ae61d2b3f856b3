use serde_flow::write::{
    begin_verified_write, check_read_back, save_to_bytes_verified, WriteOutcome, WRITE_ATTEMPTS,
};

// The verified writer's bounded retry loop, driven by hand: the test plays
// the storage destination, handing the verifier whatever "read back".

#[test]
fn verified_write_fails_after_three_corrupted_attempts() {
    let data = vec![1u8, 2, 3, 4];
    let corrupted = vec![9u8, 9, 9];

    assert_eq!(WRITE_ATTEMPTS, 3);
    let mut verifier = begin_verified_write(&data);

    // The destination is corrupted between write and read-back on every
    // attempt: the first two checks ask for a retry, the third fails the
    // save, after exactly the configured number of attempts.
    assert_eq!(check_read_back(&mut verifier, &corrupted), WriteOutcome::Retry);
    assert_eq!(check_read_back(&mut verifier, &corrupted), WriteOutcome::Retry);
    assert_eq!(check_read_back(&mut verifier, &corrupted), WriteOutcome::Failed);
    assert_eq!(verifier.attempts_left, 0);
}

#[test]
fn verified_write_succeeds_first_attempt_without_corruption() {
    let data = vec![1u8, 2, 3, 4];

    let mut verifier = begin_verified_write(&data);
    let read_back = data.clone();

    assert_eq!(check_read_back(&mut verifier, &read_back), WriteOutcome::Verified);
    assert_eq!(verifier.attempts_left, WRITE_ATTEMPTS);
}

#[test]
fn verified_write_recovers_from_transient_corruption() {
    let data = vec![7u8, 7];
    let corrupted = vec![0u8];

    let mut verifier = begin_verified_write(&data);

    assert_eq!(check_read_back(&mut verifier, &corrupted), WriteOutcome::Retry);
    assert_eq!(check_read_back(&mut verifier, &data.clone()), WriteOutcome::Verified);
}

#[test]
fn in_memory_verified_save_round_trips() {
    let data = vec![5u8, 6, 7];
    let mut dest: Vec<u8> = vec![1u8];

    let result = save_to_bytes_verified(&mut dest, &data);

    assert!(result.is_ok());
    assert_eq!(dest, data);
}
