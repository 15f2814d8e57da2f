//! Waiting times between the attempts of an operation that is retried.

use vstd::arithmetic::power::{lemma_pow_positive, pow};
use vstd::prelude::*;

verus! {

/// `x`, or the largest `u64` where `x` is larger.
pub open spec fn saturated(x: int) -> u64 {
    if x > u64::MAX {
        u64::MAX
    } else {
        x as u64
    }
}

/// Exponential backoff in milliseconds: the first delay is the base times
/// the factor, and each further delay is the base times the one before. A
/// delay above the limit is cut down to the limit.
#[derive(Clone, Copy, Debug, PartialEq, Eq, Structural)]
pub struct ExponentialBackoff {
    pub current: u64,
    pub base: u64,
    pub factor: u64,
    pub max_delay: Option<u64>,
}

impl ExponentialBackoff {
    /// The delay that comes next.
    pub open spec fn delay(self) -> u64 {
        let raw = saturated(self.current * self.factor);
        match self.max_delay {
            Some(limit) => if raw > limit {
                limit
            } else {
                raw
            },
            None => raw,
        }
    }

    /// The strategy after it gave out one delay.
    pub open spec fn advanced(self) -> ExponentialBackoff {
        ExponentialBackoff { current: saturated(self.current * self.base), ..self }
    }

    /// The strategy after it gave out `n` delays.
    pub open spec fn advanced_by(self, n: nat) -> ExponentialBackoff
        decreases n,
    {
        if n == 0 {
            self
        } else {
            self.advanced_by((n - 1) as nat).advanced()
        }
    }

    /// The delay number `k`, counted from zero.
    pub open spec fn delay_at(self, k: nat) -> u64 {
        self.advanced_by(k).delay()
    }

    /// The first `n` delays.
    pub open spec fn delays(self, n: nat) -> Seq<u64> {
        Seq::new(n, |k: int| self.delay_at(k as nat))
    }

    /// The strategy with the given base in milliseconds, factor 1 and no limit.
    pub fn from_millis(base: u64) -> (strategy: ExponentialBackoff)
        ensures
            strategy == (ExponentialBackoff { current: base, base, factor: 1, max_delay: None }),
    {
        ExponentialBackoff { current: base, base, factor: 1u64, max_delay: None }
    }

    /// The same strategy with every delay multiplied by `factor`.
    pub fn factor(self, factor: u64) -> (strategy: ExponentialBackoff)
        ensures
            strategy == (ExponentialBackoff { factor, ..self }),
    {
        ExponentialBackoff { factor, ..self }
    }

    /// The same strategy with no delay above `limit` milliseconds.
    pub fn with_limit(self, limit: u64) -> (strategy: ExponentialBackoff)
        ensures
            strategy == (ExponentialBackoff { max_delay: Some(limit), ..self }),
    {
        ExponentialBackoff { max_delay: Some(limit), ..self }
    }

    /// Gives out the next delay.
    pub fn next_delay(&mut self) -> (delay: u64)
        ensures
            delay == old(self).delay(),
            *final(self) == old(self).advanced(),
    {
        let raw: u64 = match self.current.checked_mul(self.factor) {
            Some(product) => product,
            None => u64::MAX,
        };
        let delay: u64 = match self.max_delay {
            Some(limit) => if raw > limit {
                limit
            } else {
                raw
            },
            None => raw,
        };
        let next: u64 = match self.current.checked_mul(self.base) {
            Some(product) => product,
            None => u64::MAX,
        };
        self.current = next;
        delay
    }

    /// The first `n` delays, in order.
    pub fn take(self, n: usize) -> (delays: Vec<u64>)
        ensures
            delays@ == self.delays(n as nat),
    {
        let mut strategy: ExponentialBackoff = self;
        let mut delays: Vec<u64> = Vec::new();
        let mut k: usize = 0;
        while k < n
            invariant
                k <= n,
                strategy == self.advanced_by(k as nat),
                delays@ == self.delays(k as nat),
            decreases n - k,
        {
            proof {
                lemma_advanced_by_next(self, k as nat);
            }
            let delay: u64 = strategy.next_delay();
            delays.push(delay);
            k = k + 1;
            proof {
                assert(delays@ =~= self.delays(k as nat));
            }
        }
        delays
    }
}

/// One more delay given out is one more step.
pub proof fn lemma_advanced_by_next(strategy: ExponentialBackoff, k: nat)
    ensures
        strategy.advanced_by(k + 1) == strategy.advanced_by(k).advanced(),
{
    assert((k + 1 - 1) as nat == k);
}

proof fn lemma_current_is_power(strategy: ExponentialBackoff, k: nat)
    requires
        strategy.current == strategy.base,
    ensures
        strategy.advanced_by(k).current == saturated(pow(strategy.base as int, k + 1)),
        strategy.advanced_by(k).base == strategy.base,
        strategy.advanced_by(k).factor == strategy.factor,
        strategy.advanced_by(k).max_delay == strategy.max_delay,
    decreases k,
{
    let b = strategy.base as int;
    reveal(pow);
    if k == 0 {
        assert(pow(b, 1) == b * pow(b, 0));
    } else {
        lemma_current_is_power(strategy, (k - 1) as nat);
        let before = pow(b, k);
        assert(pow(b, k + 1) == b * before);
        if before > u64::MAX {
            assert(b >= 1) by {
                if b == 0 {
                    assert(pow(b, k) == b * pow(b, (k - 1) as nat));
                }
            }
            assert(u64::MAX * b >= u64::MAX) by (nonlinear_arith)
                requires
                    b >= 1,
            ;
            assert(b * before >= before) by (nonlinear_arith)
                requires
                    b >= 1,
                    before >= 0,
            ;
        } else {
            assert(before >= 0) by {
                if b > 0 {
                    lemma_pow_positive(b, k);
                } else {
                    assert(pow(b, k) == b * pow(b, (k - 1) as nat));
                }
            }
            assert(before * b == b * before) by (nonlinear_arith);
        }
    }
}

/// The delays in closed form: a strategy made by `from_millis`, whatever
/// factor and limit it was given afterwards, gives as delay number `k` the
/// base to the power `k + 1` times the factor, cut down to the limit and to
/// the largest `u64`.
pub proof fn law_delay_is_power_of_base(base: u64, factor: u64, limit: Option<u64>, k: nat)
    ensures
        ({
            let strategy = ExponentialBackoff { current: base, base, factor, max_delay: limit };
            let raw = saturated(pow(base as int, k + 1) * factor);
            strategy.delay_at(k) == match limit {
                Some(l) => if raw > l {
                    l
                } else {
                    raw
                },
                None => raw,
            }
        }),
{
    let strategy = ExponentialBackoff { current: base, base, factor, max_delay: limit };
    lemma_current_is_power(strategy, k);
    let p = pow(base as int, k + 1);
    let f = factor as int;
    assert(p >= 0) by {
        if base > 0 {
            lemma_pow_positive(base as int, k + 1);
        } else {
            reveal(pow);
            assert(pow(0, k + 1) == 0 * pow(0, k));
        }
    }
    if p > u64::MAX {
        if f >= 1 {
            assert(p * f >= p) by (nonlinear_arith)
                requires
                    p >= 0,
                    f >= 1,
            ;
            assert(u64::MAX * f >= u64::MAX) by (nonlinear_arith)
                requires
                    f >= 1,
            ;
        } else {
            assert(p * f == 0) by (nonlinear_arith)
                requires
                    f == 0,
            ;
            assert(u64::MAX * f == 0) by (nonlinear_arith)
                requires
                    f == 0,
            ;
        }
    }
}

} // verus!
