use kult_node::recovery::{RecoveryThrottle, MAX_RECOVERY_ATTEMPTS_PER_WINDOW};
use kult_node::NodeError;

#[test]
fn offline_recovery_attempts_are_locally_bounded() {
    let package = b"sealed recovery authority";
    let mut throttle = RecoveryThrottle::new();
    for _ in 0..MAX_RECOVERY_ATTEMPTS_PER_WINDOW {
        assert_eq!(throttle.attempt(package, 1_000).1, Ok(()));
    }
    assert_eq!(
        throttle.attempt(package, 1_000).1,
        Err(NodeError::RecoveryAttemptLimited)
    );
    assert_eq!(
        throttle.attempt(package, 1_000).1,
        Err(NodeError::RecoveryAttemptLimited)
    );
}

#[test]
fn attempts_are_counted_by_the_digest_of_the_file() {
    let mut throttle = RecoveryThrottle::new();
    let (key, first) = throttle.attempt(b"abc", 0);
    assert_eq!(first, Ok(()));
    assert_eq!(
        key,
        [
            0xba, 0x78, 0x16, 0xbf, 0x8f, 0x01, 0xcf, 0xea, 0x41, 0x41, 0x40, 0xde, 0x5d, 0xae,
            0x22, 0x23, 0xb0, 0x03, 0x61, 0xa3, 0x96, 0x17, 0x7a, 0x9c, 0xb4, 0x10, 0xff, 0x61,
            0xf2, 0x00, 0x15, 0xad,
        ]
    );
    for _ in 1..MAX_RECOVERY_ATTEMPTS_PER_WINDOW {
        assert_eq!(throttle.attempt_key(key, 0), Ok(()));
    }
    assert_eq!(throttle.attempt(b"abc", 0).1, Err(NodeError::RecoveryAttemptLimited));
    assert_eq!(throttle.attempt(b"abd", 0).1, Ok(()));
}

#[test]
fn attempts_run_out_of_the_window_and_are_forgiven_on_success() {
    let mut throttle = RecoveryThrottle::new();
    for _ in 0..MAX_RECOVERY_ATTEMPTS_PER_WINDOW {
        assert_eq!(throttle.attempt_key([1; 32], 10), Ok(()));
    }
    assert_eq!(throttle.attempt_key([1; 32], 60_009), Err(NodeError::RecoveryAttemptLimited));
    assert_eq!(throttle.attempt_key([1; 32], 60_011), Ok(()));
    for _ in 0..MAX_RECOVERY_ATTEMPTS_PER_WINDOW {
        let _ = throttle.attempt_key([2; 32], 10);
    }
    throttle.forget_key([2; 32]);
    for _ in 0..MAX_RECOVERY_ATTEMPTS_PER_WINDOW {
        assert_eq!(throttle.attempt_key([2; 32], 10), Ok(()));
    }
    assert_eq!(throttle.attempt_key([2; 32], 10), Err(NodeError::RecoveryAttemptLimited));
}
