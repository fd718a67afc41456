use ingest_retry::retry::{
    backoff_ceiling, compute_delay, retry, InstantSleeper, Retry, RetryParams, Retryable,
    ScriptedOperation, DEFAULT_BASE_DELAY_MS, DEFAULT_MAX_DELAY_MS, DEFAULT_MAX_RETRY_ATTEMPTS,
};

fn simulate_retries<T>(values: Vec<Result<T, Retry<usize>>>) -> Result<T, Retry<usize>> {
    let mut operation = ScriptedOperation::new(values);
    let mut sleeper = InstantSleeper {};
    retry(&RetryParams::default(), &mut operation, &mut sleeper)
}

#[test]
fn test_retry_accepts_ok() {
    assert_eq!(simulate_retries(vec![Ok(())]), Ok(()));
}

#[test]
fn test_retry_does_retry() {
    assert_eq!(
        simulate_retries(vec![Err(Retry::Transient(1)), Ok(())]),
        Ok(())
    );
}

#[test]
fn test_retry_stops_retrying_on_non_retryable_error() {
    assert_eq!(
        simulate_retries(vec![Err(Retry::Permanent(1)), Ok(())]),
        Err(Retry::Permanent(1))
    );
}

#[test]
fn test_retry_retries_up_at_most_attempts_times() {
    let retry_sequence: Vec<_> = (0..30)
        .map(|retry_id| Err(Retry::Transient(retry_id)))
        .chain(Some(Ok(())))
        .collect();
    assert_eq!(
        simulate_retries(retry_sequence),
        Err(Retry::Transient(29))
    );
}

#[test]
fn test_retry_retries_up_to_max_attempts_times() {
    let retry_sequence: Vec<_> = (0..29)
        .map(|retry_id| Err(Retry::Transient(retry_id)))
        .chain(Some(Ok(())))
        .collect();
    assert_eq!(simulate_retries(retry_sequence), Ok(()));
}

#[test]
fn test_retry_accelerated_params() {
    let params = RetryParams::accelerated();
    assert_eq!(params.base_delay_ms, 50);
    assert_eq!(params.max_delay_ms, 1_000);
    assert_eq!(params.max_attempts, 30);
    let mut operation = ScriptedOperation::new(vec![
        Err(Retry::Transient(0usize)),
        Err(Retry::Transient(1)),
        Ok(42u64),
    ]);
    let mut sleeper = InstantSleeper {};
    assert_eq!(retry(&params, &mut operation, &mut sleeper), Ok(42));
}

#[test]
fn test_default_params() {
    let params = RetryParams::default();
    assert_eq!(params.base_delay_ms, DEFAULT_BASE_DELAY_MS);
    assert_eq!(params.base_delay_ms, 250);
    assert_eq!(params.max_delay_ms, DEFAULT_MAX_DELAY_MS);
    assert_eq!(params.max_delay_ms, 20_000);
    assert_eq!(params.max_attempts, DEFAULT_MAX_RETRY_ATTEMPTS);
    assert_eq!(params.max_attempts, 30);
}

#[test]
fn test_into_inner() {
    assert_eq!(Retry::Transient(3).into_inner(), 3);
    assert_eq!(Retry::Permanent(4).into_inner(), 4);
}

#[test]
fn test_is_retryable_classification() {
    assert!(Retry::<u8>::Transient(1).is_retryable());
    assert!(!Retry::<u8>::Permanent(1).is_retryable());
}

#[test]
fn test_from_consults_retryability() {
    // `Retry<u8>` is itself `Retryable`, so it can be re-tagged through
    // `From`: a transient inner error tags as transient, a permanent one
    // as permanent.
    let transient: Retry<Retry<u8>> = Retry::from(Retry::Transient(1u8));
    assert_eq!(transient, Retry::Transient(Retry::Transient(1u8)));
    let permanent: Retry<Retry<u8>> = Retry::from(Retry::Permanent(2u8));
    assert_eq!(permanent, Retry::Permanent(Retry::Permanent(2u8)));
}

#[test]
fn test_backoff_ceiling_doubles_then_caps() {
    let params = RetryParams::default();
    assert_eq!(backoff_ceiling(&params, 0), 250);
    assert_eq!(backoff_ceiling(&params, 1), 500);
    assert_eq!(backoff_ceiling(&params, 2), 1_000);
    assert_eq!(backoff_ceiling(&params, 3), 2_000);
    assert_eq!(backoff_ceiling(&params, 6), 16_000);
    // 250 * 2^7 = 32_000 exceeds the 20_000 cap.
    assert_eq!(backoff_ceiling(&params, 7), 20_000);
    assert_eq!(backoff_ceiling(&params, 30), 20_000);
    // Far past any representable power of two: still the cap, no overflow.
    assert_eq!(backoff_ceiling(&params, 1_000), 20_000);
}

#[test]
fn test_jitter_within_bound() {
    let params = RetryParams::accelerated();
    for attempt_count in 0..16 {
        let ceiling = backoff_ceiling(&params, attempt_count);
        let expected = 1_000u64.min(50u64 << attempt_count);
        assert_eq!(ceiling, expected);
        for _ in 0..50 {
            let delay_ms = compute_delay(&params, attempt_count);
            assert!(delay_ms < ceiling);
        }
    }
}
