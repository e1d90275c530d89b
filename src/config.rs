//! Reading a split's parameters from command-line arguments.
use crate::sharing::Config;
use vstd::prelude::*;
use vstd::utf8::encode_utf8;

verus! {

/// Why the arguments do not describe a split.
#[derive(Debug, Clone, Copy, PartialEq, Eq, Structural)]
pub enum ConfigError {
    NotEnoughArguments,
    InvalidSecret,
    InvalidShares,
    InvalidThreshold,
    ThresholdAboveShares,
}

impl ConfigError {
    /// A sentence for the user.
    pub fn message(&self) -> &'static str {
        match self {
            ConfigError::NotEnoughArguments => "Not enough arguments.",
            ConfigError::InvalidSecret => "Could not parse the first argument (needs to be a non-negative integer).",
            ConfigError::InvalidShares => "Could not parse the second argument (needs to be a positive integer).",
            ConfigError::InvalidThreshold => "Could not parse the third argument (needs to be a positive integer).",
            ConfigError::ThresholdAboveShares => "Threshold needs to be smaller or equal to the number of generated shares",
        }
    }
}

/// A non-empty run of ASCII digits.
pub open spec fn is_digits(b: Seq<u8>) -> bool {
    b.len() > 0 && forall|i: int| 0 <= i < b.len() ==> 48 <= #[trigger] b[i] <= 57
}

/// The value of a run of decimal digits.
pub open spec fn decimal(b: Seq<u8>) -> int
    decreases b.len(),
{
    if b.len() == 0 {
        0
    } else {
        decimal(b.drop_last()) * 10 + (b.last() - 48)
    }
}

/// The value that `s` spells in decimal, if it is at most `max`.
pub open spec fn parsed(s: Seq<char>, max: int) -> Option<int> {
    let b = encode_utf8(s);
    if is_digits(b) && decimal(b) <= max {
        Some(decimal(b))
    } else {
        None
    }
}

proof fn lemma_decimal_grows(b: Seq<u8>, j: int)
    requires
        0 <= j <= b.len(),
        forall|i: int| 0 <= i < b.len() ==> 48 <= #[trigger] b[i] <= 57,
    ensures
        decimal(b.take(j)) <= decimal(b),
    decreases b.len() - j,
{
    if j < b.len() {
        lemma_decimal_grows(b, j + 1);
        assert(b.take(j + 1).drop_last() =~= b.take(j));
        assert(b.take(j + 1).last() == b[j]);
        assert(decimal(b.take(j)) >= 0) by {
            lemma_decimal_nonneg(b.take(j));
        }
    } else {
        assert(b.take(j) =~= b);
    }
}

proof fn lemma_decimal_nonneg(b: Seq<u8>)
    requires
        forall|i: int| 0 <= i < b.len() ==> 48 <= #[trigger] b[i] <= 57,
    ensures
        decimal(b) >= 0,
    decreases b.len(),
{
    if b.len() > 0 {
        assert forall|i: int| 0 <= i < b.drop_last().len() implies 48 <= #[trigger] b.drop_last()[i]
            <= 57 by {
            assert(b.drop_last()[i] == b[i]);
        }
        lemma_decimal_nonneg(b.drop_last());
    }
}

/// Reads `s` as a decimal number no larger than `max`. Only ASCII digits are
/// taken: a sign, `+` included, is refused.
fn parse_decimal(s: &String, max: u64) -> (r: Option<u64>)
    ensures
        r matches Some(v) ==> parsed(s@, max as int) == Some(v as int),
        r is None ==> parsed(s@, max as int) is None,
{
    let b = s.as_str().as_bytes();
    let ghost bs = encode_utf8(s@);
    assert(b@ == bs);
    let n = b.len();
    if n == 0 {
        return None;
    }
    let mut v: u64 = 0;
    let mut i: usize = 0;
    while i < n
        invariant
            b@ == bs,
            bs == encode_utf8(s@),
            n == bs.len(),
            i <= n,
            v <= max,
            forall|j: int| 0 <= j < i ==> 48 <= #[trigger] bs[j] <= 57,
            v == decimal(bs.take(i as int)),
        decreases n - i,
    {
        let c = b[i];
        if c < 48 || c > 57 {
            assert(bs[i as int] == c);

            return None;
        }
        let d = (c - 48) as u64;
        proof {
            assert(bs.take(i + 1).drop_last() =~= bs.take(i as int));
            assert(bs.take(i + 1).last() == c);
        }
        if d > max || v > (max - d) / 10 {
            proof {
                assert(v * 10 + d > max) by (nonlinear_arith)
                    requires
                        d > max || v > (max - d) / 10,
                        d <= max ==> (max - d) == 10 * ((max - d) / 10) + (max - d) % 10,
                        0 <= (max - d) % 10 < 10,
                        v >= 0,
                ;
                assert forall|j: int| 0 <= j < i + 1 implies 48 <= #[trigger] bs.take(i + 1)[j]
                    <= 57 by {
                    assert(bs.take(i + 1)[j] == bs[j]);
                }
                if is_digits(bs) {
                    lemma_decimal_grows(bs, i + 1);
                }
            }
            return None;
        }
        proof {
            assert(v * 10 + d <= max) by (nonlinear_arith)
                requires
                    d <= max,
                    v <= (max - d) / 10,
                    (max - d) == 10 * ((max - d) / 10) + (max - d) % 10,
                    0 <= (max - d) % 10 < 10,
            ;
        }
        v = v * 10 + d;
        i = i + 1;
    }
    proof {
        assert(bs.take(n as int) =~= bs);
    }
    Some(v)
}

impl Config {
    /// The secret, the number of shares and the threshold, from
    /// `args[1]`, `args[2]` and `args[3]`. The threshold must lie in
    /// `1..=shares`, so the number of shares is positive as well; the bounds
    /// that depend on the field's prime are checked by `split`.
    pub fn new(args: &[String]) -> (r: Result<Config, ConfigError>)
        ensures
            args@.len() < 4 ==> r == Err::<Config, ConfigError>(ConfigError::NotEnoughArguments),
            args@.len() >= 4 ==> r == (if parsed(args@[1]@, u64::MAX as int) is None {
                Err(ConfigError::InvalidSecret)
            } else if parsed(args@[2]@, u32::MAX as int) is None {
                Err(ConfigError::InvalidShares)
            } else if parsed(args@[3]@, u32::MAX as int) is None {
                Err(ConfigError::InvalidThreshold)
            } else if parsed(args@[3]@, u32::MAX as int)->0 == 0 {
                Err(ConfigError::InvalidThreshold)
            } else if parsed(args@[3]@, u32::MAX as int)->0 > parsed(args@[2]@, u32::MAX as int)->0 {
                Err(ConfigError::ThresholdAboveShares)
            } else {
                Ok(
                    Config {
                        secret: parsed(args@[1]@, u64::MAX as int)->0 as u64,
                        shares: parsed(args@[2]@, u32::MAX as int)->0 as u32,
                        threshold: parsed(args@[3]@, u32::MAX as int)->0 as u32,
                    },
                )
            }),
    {
        if args.len() < 4 {
            return Err(ConfigError::NotEnoughArguments);
        }
        let secret = match parse_decimal(&args[1], u64::MAX) {
            Some(v) => v,
            None => {
                return Err(ConfigError::InvalidSecret);
            },
        };
        let shares = match parse_decimal(&args[2], u32::MAX as u64) {
            Some(v) => v as u32,
            None => {
                return Err(ConfigError::InvalidShares);
            },
        };
        let threshold = match parse_decimal(&args[3], u32::MAX as u64) {
            Some(v) => v as u32,
            None => {
                return Err(ConfigError::InvalidThreshold);
            },
        };
        if threshold == 0 {
            return Err(ConfigError::InvalidThreshold);
        }
        if threshold > shares {
            return Err(ConfigError::ThresholdAboveShares);
        }
        Ok(Config { secret, shares, threshold })
    }
}

} // verus!
