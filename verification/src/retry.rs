//! Retrying executor: wraps a fallible, repeatable operation with
//! exponential backoff and full jitter, classifying errors as transient
//! (retried) or permanent (returned at once), up to a bounded number of
//! attempts.
use vstd::prelude::*;

verus! {

/// Capability of an error type to report whether retrying the failed
/// operation could plausibly succeed.
pub trait Retryable {
    /// Specification-level retryability of this error value.
    spec fn retryable_spec(&self) -> bool;

    /// Returns true exactly when the error is worth retrying.
    fn is_retryable(&self) -> (retryable: bool)
        ensures
            retryable == self.retryable_spec(),
    ;
}

/// An error tagged with the attempt outcome that produced it: transient
/// failures are retried, permanent ones are returned at once.
#[derive(Debug, PartialEq, Eq)]
pub enum Retry<E> {
    Transient(E),
    Permanent(E),
}

impl<E> Retry<E> {
    /// The inner error, whatever the tag.
    pub open spec fn inner_spec(self) -> E {
        match self {
            Retry::Transient(error) => error,
            Retry::Permanent(error) => error,
        }
    }

    /// Unwraps the inner error regardless of variant.
    pub fn into_inner(self) -> (error: E)
        ensures
            error == self.inner_spec(),
    {
        match self {
            Retry::Transient(error) => error,
            Retry::Permanent(error) => error,
        }
    }
}

impl<E> Retryable for Retry<E> {
    open spec fn retryable_spec(&self) -> bool {
        self is Transient
    }

    fn is_retryable(&self) -> (retryable: bool)
        ensures
            retryable == self.retryable_spec(),
    {
        match self {
            Retry::Transient(_) => true,
            Retry::Permanent(_) => false,
        }
    }
}

impl<E: Retryable> From<E> for Retry<E> {
    /// Tags an error by consulting its own retryability flag: transient
    /// when retryable, permanent otherwise.
    fn from(error: E) -> (tagged: Retry<E>) {
        if error.is_retryable() {
            Retry::Transient(error)
        } else {
            Retry::Permanent(error)
        }
    }
}

impl<E: Retryable> vstd::std_specs::convert::FromSpecImpl<E> for Retry<E> {
    open spec fn obeys_from_spec() -> bool {
        true
    }

    open spec fn from_spec(error: E) -> Retry<E> {
        if error.retryable_spec() {
            Retry::Transient(error)
        } else {
            Retry::Permanent(error)
        }
    }
}

/// Default number of attempts before the executor gives up.
pub const DEFAULT_MAX_RETRY_ATTEMPTS: usize = 30;

/// Default base delay, in milliseconds, for the exponential backoff.
pub const DEFAULT_BASE_DELAY_MS: u64 = 250;

/// Default cap, in milliseconds, on the backoff ceiling.
pub const DEFAULT_MAX_DELAY_MS: u64 = 20_000;

/// Configuration of the retry schedule: backoff base and cap, both in
/// milliseconds, and the attempt budget. Immutable once constructed.
#[derive(Debug, Clone, Copy, PartialEq, Eq, Structural)]
pub struct RetryParams {
    pub base_delay_ms: u64,
    pub max_delay_ms: u64,
    pub max_attempts: usize,
}

impl RetryParams {
    /// Parameters that make a retry schedule meaningful: at least one
    /// attempt, and nonzero delay bounds, so that the jitter range is
    /// never empty.
    pub open spec fn valid(&self) -> bool {
        &&& self.base_delay_ms >= 1
        &&& self.max_delay_ms >= 1
        &&& self.max_attempts >= 1
    }

    /// Parameters for accelerated, deterministic test environments: a 50 ms
    /// base delay and a 1 s cap, with the default attempt budget.
    pub fn accelerated() -> (params: RetryParams)
        ensures
            params == (RetryParams {
                base_delay_ms: 50,
                max_delay_ms: 1_000,
                max_attempts: DEFAULT_MAX_RETRY_ATTEMPTS,
            }),
            params.valid(),
    {
        RetryParams { base_delay_ms: 50, max_delay_ms: 1_000, max_attempts: DEFAULT_MAX_RETRY_ATTEMPTS }
    }
}

impl Default for RetryParams {
    /// Production defaults: 250 ms base delay, 20 s cap, 30 attempts.
    fn default() -> (params: RetryParams)
        ensures
            params == (RetryParams {
                base_delay_ms: DEFAULT_BASE_DELAY_MS,
                max_delay_ms: DEFAULT_MAX_DELAY_MS,
                max_attempts: DEFAULT_MAX_RETRY_ATTEMPTS,
            }),
            params.valid(),
    {
        RetryParams {
            base_delay_ms: DEFAULT_BASE_DELAY_MS,
            max_delay_ms: DEFAULT_MAX_DELAY_MS,
            max_attempts: DEFAULT_MAX_RETRY_ATTEMPTS,
        }
    }
}

/// The ceiling of the jitter range before the next attempt, after
/// `attempt_count` attempts have failed: the base delay doubled once per
/// attempt, capped by the maximum delay — exact integer arithmetic.
pub open spec fn backoff_ceiling_spec(params: RetryParams, attempt_count: nat) -> int {
    let unclamped = params.base_delay_ms * vstd::arithmetic::power2::pow2(attempt_count);
    if unclamped <= params.max_delay_ms {
        unclamped as int
    } else {
        params.max_delay_ms as int
    }
}

/// Computes min(base_delay * 2^attempt_count, max_delay) without overflow,
/// by doubling under the cap.
pub fn backoff_ceiling(params: &RetryParams, attempt_count: usize) -> (ceiling: u64)
    ensures
        ceiling == backoff_ceiling_spec(*params, attempt_count as nat),
{
    let base = params.base_delay_ms;
    let cap = params.max_delay_ms;
    let mut ceiling: u64 = if base <= cap {
        base
    } else {
        cap
    };
    proof {
        vstd::arithmetic::power2::lemma2_to64();
    }
    let mut i: usize = 0;
    while i < attempt_count
        invariant
            i <= attempt_count,
            base == params.base_delay_ms,
            cap == params.max_delay_ms,
            ceiling == backoff_ceiling_spec(*params, i as nat),
        decreases attempt_count - i,
    {
        proof {
            let p = vstd::arithmetic::power2::pow2(i as nat);
            vstd::arithmetic::power2::lemma_pow2_unfold((i + 1) as nat);
            assert(base * vstd::arithmetic::power2::pow2((i + 1) as nat) == 2 * (base * p))
                by (nonlinear_arith)
                requires
                    vstd::arithmetic::power2::pow2((i + 1) as nat) == 2 * p,
            ;
        }
        if ceiling < cap {
            if ceiling > cap / 2 {
                ceiling = cap;
            } else {
                ceiling = ceiling * 2;
            }
        }
        i += 1;
    }
    ceiling
}

/// Relies on rand's `Rng::gen_range` over the half-open range
/// `0..ceiling_ms`: the sample drawn lies in that range (uniformly); the
/// call panics only on an empty range, which the precondition rules out.
#[verifier::external_body]
fn random_below(ceiling_ms: u64) -> (delay_ms: u64)
    requires
        ceiling_ms >= 1,
    ensures
        delay_ms < ceiling_ms,
{
    rand::Rng::gen_range(&mut rand::thread_rng(), 0..ceiling_ms)
}

/// Picks the delay before the next attempt, uniformly at random in
/// `[0, min(base_delay * 2^attempt_count, max_delay))` — full jitter: the
/// delay is drawn from zero up to the exponential ceiling, not centered,
/// decorrelating concurrent callers' retries.
pub fn compute_delay(params: &RetryParams, attempt_count: usize) -> (delay_ms: u64)
    requires
        params.base_delay_ms >= 1,
        params.max_delay_ms >= 1,
    ensures
        delay_ms < backoff_ceiling_spec(*params, attempt_count as nat),
{
    let ceiling = backoff_ceiling(params, attempt_count);
    proof {
        let p = vstd::arithmetic::power2::pow2(attempt_count as nat);
        vstd::arithmetic::power2::lemma_pow2_pos(attempt_count as nat);
        assert(params.base_delay_ms * p >= 1) by (nonlinear_arith)
            requires
                params.base_delay_ms >= 1,
                p >= 1,
        ;
    }
    random_below(ceiling)
}

/// Waiting out a backoff delay, real or virtual: the executor's only
/// suspension point. Injecting a virtual sleeper removes wall-clock
/// dependence and makes retry schedules deterministic under test.
pub trait Sleeper {
    /// Waits for (at least) the given number of milliseconds.
    fn sleep(&mut self, delay_ms: u64);
}

/// A virtual clock that elapses instantly, for deterministic tests.
pub struct InstantSleeper {}

impl Sleeper for InstantSleeper {
    fn sleep(&mut self, _delay_ms: u64) {
    }
}

/// A zero-argument, repeatable producer of fallible results: one call per
/// retry attempt. The specification views an operation through the script
/// of outcomes that its successive calls will yield.
pub trait Operation<T, E> {
    /// The outcomes that successive calls to `attempt` will yield, in
    /// order.
    spec fn script(&self) -> Seq<Result<T, E>>;

    /// Runs one attempt, yielding the head of the script.
    fn attempt(&mut self) -> (outcome: Result<T, E>)
        requires
            old(self).script().len() > 0,
        ensures
            outcome == old(self).script()[0],
            final(self).script() == old(self).script().drop_first(),
    ;
}

/// An operation whose outcomes are laid out in advance, for deterministic
/// tests of the retry schedule.
pub struct ScriptedOperation<T, E> {
    outcomes: Vec<Result<T, E>>,
}

impl<T, E> ScriptedOperation<T, E> {
    /// An operation that will yield `outcomes` in order.
    pub fn new(outcomes: Vec<Result<T, E>>) -> (operation: ScriptedOperation<T, E>)
        ensures
            operation.script() == outcomes@,
    {
        ScriptedOperation { outcomes }
    }
}

impl<T, E> Operation<T, E> for ScriptedOperation<T, E> {
    closed spec fn script(&self) -> Seq<Result<T, E>> {
        self.outcomes@
    }

    fn attempt(&mut self) -> (outcome: Result<T, E>) {
        let outcome = self.outcomes.remove(0);
        proof {
            assert(final(self).outcomes@ =~= old(self).outcomes@.drop_first());
        }
        outcome
    }
}

/// Whether an outcome is a transient failure: an error worth retrying.
pub open spec fn is_transient<T, E: Retryable>(outcome: Result<T, E>) -> bool {
    match outcome {
        Result::Ok(_) => false,
        Result::Err(error) => error.retryable_spec(),
    }
}

/// The outcome the retry executor returns for a given script of attempt
/// outcomes and budget of attempts: the first outcome that is a success or
/// a permanent failure — or, if the budget runs out first, the outcome of
/// the last allowed attempt, unmodified.
pub open spec fn retry_outcome<T, E: Retryable>(
    script: Seq<Result<T, E>>,
    max_attempts: nat,
) -> Result<T, E>
    decreases max_attempts,
{
    if max_attempts <= 1 || !is_transient(script[0]) {
        script[0]
    } else {
        retry_outcome(script.drop_first(), (max_attempts - 1) as nat)
    }
}

/// The number of attempts the retry executor makes for a given script and
/// budget: one per leading transient failure plus the attempt whose
/// outcome is returned, capped by the budget.
pub open spec fn retry_attempts<T, E: Retryable>(
    script: Seq<Result<T, E>>,
    max_attempts: nat,
) -> nat
    decreases max_attempts,
{
    if max_attempts <= 1 || !is_transient(script[0]) {
        1
    } else {
        1 + retry_attempts(script.drop_first(), (max_attempts - 1) as nat)
    }
}

/// Dropping the first element of a suffix yields the next shorter suffix.
proof fn lemma_skip_drop_first<A>(s: Seq<A>, n: int)
    requires
        0 <= n < s.len(),
    ensures
        s.skip(n).drop_first() =~= s.skip(n + 1),
{
    assert forall|i: int| 0 <= i < s.skip(n + 1).len() implies s.skip(n).drop_first()[i] == s.skip(
        n + 1,
    )[i] by {
        assert(s.skip(n).drop_first()[i] == s.skip(n)[i + 1]);
        assert(s.skip(n)[i + 1] == s[n + i + 1]);
        assert(s.skip(n + 1)[i] == s[n + 1 + i]);
    }
}

/// The executor always makes at least one attempt and never more than the
/// budget allows.
pub proof fn lemma_retry_attempts_bounds<T, E: Retryable>(
    script: Seq<Result<T, E>>,
    max_attempts: nat,
)
    requires
        max_attempts >= 1,
    ensures
        1 <= retry_attempts(script, max_attempts) <= max_attempts,
    decreases max_attempts,
{
    if max_attempts > 1 && is_transient(script[0]) {
        lemma_retry_attempts_bounds(script.drop_first(), (max_attempts - 1) as nat);
    }
}

/// Retries `operation` with exponential backoff and full jitter: returns
/// its first success or permanent failure at once, sleeps between
/// transient failures, and after the budget's last attempt returns that
/// attempt's error unmodified. The script consumed — exactly one entry per
/// attempt made — is pinned by the postcondition.
pub fn retry<T, E: Retryable, Op: Operation<T, E>, S: Sleeper>(
    retry_params: &RetryParams,
    operation: &mut Op,
    sleeper: &mut S,
) -> (outcome: Result<T, E>)
    requires
        retry_params.valid(),
        old(operation).script().len() >= retry_attempts(
            old(operation).script(),
            retry_params.max_attempts as nat,
        ),
    ensures
        outcome == retry_outcome(old(operation).script(), retry_params.max_attempts as nat),
        final(operation).script() == old(operation).script().skip(
            retry_attempts(old(operation).script(), retry_params.max_attempts as nat) as int,
        ),
{
    let ghost script = old(operation).script();
    let ghost budget = retry_params.max_attempts as nat;
    let mut attempt_count: usize = 0;
    proof {
        assert(script.skip(0) =~= script);
    }
    loop
        invariant
            retry_params.valid(),
            budget == retry_params.max_attempts as nat,
            script == old(operation).script(),
            attempt_count < retry_params.max_attempts,
            attempt_count as int <= script.len(),
            operation.script() == script.skip(attempt_count as int),
            operation.script().len() >= retry_attempts(
                operation.script(),
                (budget - attempt_count) as nat,
            ),
            retry_outcome(script, budget) == retry_outcome(
                operation.script(),
                (budget - attempt_count) as nat,
            ),
            retry_attempts(script, budget) == attempt_count + retry_attempts(
                operation.script(),
                (budget - attempt_count) as nat,
            ),
        decreases retry_params.max_attempts - attempt_count,
    {
        let ghost remaining = operation.script();
        let ghost left = (budget - attempt_count) as nat;
        proof {
            lemma_retry_attempts_bounds(remaining, left);
        }
        let response = operation.attempt();
        attempt_count += 1;
        proof {
            assert(remaining.len() >= 1);
            assert(remaining == script.skip(attempt_count as int - 1));
            assert(remaining.len() == script.len() - (attempt_count as int - 1));
            lemma_skip_drop_first(script, attempt_count as int - 1);
            assert(operation.script() == script.skip(attempt_count as int));
        }
        match response {
            Ok(value) => {
                return Ok(value);
            },
            Err(error) => {
                if !error.is_retryable() {
                    return Err(error);
                }
                if attempt_count >= retry_params.max_attempts {
                    return Err(error);
                }
                let delay_ms = compute_delay(retry_params, attempt_count);
                sleeper.sleep(delay_ms);
            },
        }
    }
}

/// Success short-circuits: for a script whose first outcome is a success,
/// the executor returns that success after exactly one attempt, whatever
/// the retry parameters.
pub proof fn lemma_success_short_circuits<T, E: Retryable>(
    script: Seq<Result<T, E>>,
    max_attempts: nat,
)
    requires
        max_attempts >= 1,
        script.len() >= 1,
        script[0] is Ok,
    ensures
        retry_outcome(script, max_attempts) == script[0],
        retry_attempts(script, max_attempts) == 1,
{
}

/// Retries on transient, stops on permanent: for a script whose first `k`
/// outcomes are transient failures and whose next outcome is a permanent
/// failure, within the attempt budget, the executor makes exactly `k + 1`
/// attempts and returns the permanent failure.
pub proof fn lemma_permanent_stops<T, E: Retryable>(
    script: Seq<Result<T, E>>,
    max_attempts: nat,
    k: nat,
)
    requires
        k < max_attempts,
        k < script.len(),
        forall|i: int| 0 <= i < k ==> is_transient(#[trigger] script[i]),
        script[k as int] is Err,
        !is_transient(script[k as int]),
    ensures
        retry_outcome(script, max_attempts) == script[k as int],
        retry_attempts(script, max_attempts) == k + 1,
    decreases k,
{
    if k > 0 {
        assert(forall|i: int|
            0 <= i < script.len() - 1 ==> #[trigger] script.drop_first()[i] == script[i + 1]);
        lemma_permanent_stops(script.drop_first(), (max_attempts - 1) as nat, (k - 1) as nat);
    }
}

/// Bounded attempts: when the first `n - 1` outcomes of a script are all
/// transient failures and the budget is `n`, the executor makes exactly
/// `n` attempts and returns the `n`-th outcome unmodified — the last
/// transient error if that attempt failed too, the success if it
/// succeeded. A would-be later outcome is never reached.
pub proof fn lemma_bounded_attempts<T, E: Retryable>(script: Seq<Result<T, E>>, n: nat)
    requires
        1 <= n <= script.len(),
        forall|i: int| 0 <= i < n - 1 ==> is_transient(#[trigger] script[i]),
    ensures
        retry_outcome(script, n) == script[n - 1],
        retry_attempts(script, n) == n,
    decreases n,
{
    if n > 1 && is_transient(script[0]) {
        assert(forall|i: int|
            0 <= i < script.len() - 1 ==> #[trigger] script.drop_first()[i] == script[i + 1]);
        lemma_bounded_attempts(script.drop_first(), (n - 1) as nat);
    }
}

} // verus!
