use secret_sharing::config::ConfigError;
use secret_sharing::field::{Field, FieldError};
use secret_sharing::sharing::{
    coefficients_from, evaluate_polygon, generate_polygon_coefficients, generate_shares,
    recover_secret, split, split_with_draws, Config, RecoverError, Share, SplitError,
};

/// 2^61 - 1, a Mersenne prime.
const PRIME: u64 = 2305843009213693951;

fn field() -> Field {
    Field::new(PRIME)
}

fn scenario_config() -> Config {
    Config {
        secret: 123456789,
        shares: 6,
        threshold: 4,
    }
}

fn pick(shares: &[Share], xs: &[u64]) -> Vec<Share> {
    xs.iter()
        .map(|x| *shares.iter().find(|s| s.x == *x).unwrap())
        .collect()
}

#[test]
fn size_of_generated_coefficients() {
    let config = scenario_config();
    let coefficients = generate_polygon_coefficients(&config, &field());
    assert_eq!(
        coefficients.len() as u32,
        config.threshold,
        "Vector of coefficients has the wrong length."
    );
    assert_eq!(coefficients[0], config.secret);
}

#[test]
fn number_of_generated_shares() {
    let config = scenario_config();
    let f = field();
    let coefficients = generate_polygon_coefficients(&config, &f);
    let shares = generate_shares(&config, &coefficients, &f);
    assert_eq!(
        shares.len() as u32,
        config.shares,
        "wrong number of shares generated."
    );
}

#[test]
fn every_four_subset_recovers_the_secret() {
    let f = field();
    let shares = split(&scenario_config(), &f).unwrap();
    assert_eq!(shares.len(), 6);
    assert_eq!(recover_secret(&pick(&shares, &[1, 2, 3, 4]), 4, &f), Ok(123456789));
    assert_eq!(recover_secret(&pick(&shares, &[2, 3, 5, 6]), 4, &f), Ok(123456789));
    for a in 1..=6u64 {
        for b in a + 1..=6 {
            for c in b + 1..=6 {
                for d in c + 1..=6 {
                    let subset = pick(&shares, &[a, b, c, d]);
                    assert_eq!(recover_secret(&subset, 4, &f), Ok(123456789));
                }
            }
        }
    }
}

#[test]
fn larger_subsets_and_any_order_agree() {
    let f = field();
    let shares = split(&scenario_config(), &f).unwrap();
    assert_eq!(recover_secret(&shares, 4, &f), Ok(123456789));
    assert_eq!(recover_secret(&pick(&shares, &[6, 1, 4, 2, 5]), 4, &f), Ok(123456789));
}

#[test]
fn three_shares_are_not_enough() {
    let f = field();
    let shares = split(&scenario_config(), &f).unwrap();
    let subset = pick(&shares, &[1, 2, 3]);
    assert_eq!(
        recover_secret(&subset, 4, &f),
        Err(RecoverError::InsufficientShares)
    );
    // Forced through with a lower threshold, the interpolation misses the secret.
    assert_ne!(recover_secret(&subset, 3, &f), Ok(123456789));
}

#[test]
fn held_out_share_changes_the_value_below_threshold() {
    let f = Field::new(101);
    let config = Config {
        secret: 42,
        shares: 3,
        threshold: 3,
    };
    let first = generate_shares(&config, &vec![42, 5, 7], &f);
    let second = generate_shares(&config, &vec![42, 5, 8], &f);
    let a = recover_secret(&first[..2].to_vec(), 2, &f).unwrap();
    let b = recover_secret(&second[..2].to_vec(), 2, &f).unwrap();
    assert_ne!(a, b);
    assert_eq!(recover_secret(&first, 3, &f), Ok(42));
    assert_eq!(recover_secret(&second, 3, &f), Ok(42));
}

#[test]
fn duplicate_x_is_rejected() {
    let f = Field::new(11);
    let shares = vec![Share { x: 1, y: 3 }, Share { x: 1, y: 4 }, Share { x: 2, y: 5 }];
    assert_eq!(
        recover_secret(&shares, 2, &f),
        Err(RecoverError::DuplicateShareX)
    );
    assert_eq!(
        recover_secret(&shares, 5, &f),
        Err(RecoverError::DuplicateShareX)
    );
}

#[test]
fn empty_share_set_is_rejected() {
    let f = Field::new(11);
    assert_eq!(
        recover_secret(&Vec::new(), 0, &f),
        Err(RecoverError::InsufficientShares)
    );
}

#[test]
fn recovery_of_a_known_line() {
    // 7 + 3x over the integers modulo 11
    let f = Field::new(11);
    let shares = vec![Share { x: 1, y: 10 }, Share { x: 2, y: 2 }];
    assert_eq!(recover_secret(&shares, 2, &f), Ok(7));
}

#[test]
fn split_rejects_bad_parameters() {
    let f = Field::new(101);
    let cfg = |secret, shares, threshold| Config {
        secret,
        shares,
        threshold,
    };
    assert_eq!(split(&cfg(5, 3, 4), &f), Err(SplitError::InvalidThreshold));
    assert_eq!(split(&cfg(5, 3, 0), &f), Err(SplitError::InvalidThreshold));
    assert_eq!(split(&cfg(5, 101, 2), &f), Err(SplitError::InvalidShareCount));
    assert_eq!(split(&cfg(101, 5, 2), &f), Err(SplitError::SecretOutOfRange));
    assert_eq!(split(&cfg(100, 100, 1), &f).map(|s| s.len()), Ok(100));
}

#[test]
fn threshold_one_hands_out_the_secret() {
    let f = Field::new(101);
    let shares = split(
        &Config {
            secret: 9,
            shares: 4,
            threshold: 1,
        },
        &f,
    )
    .unwrap();
    assert!(shares.iter().all(|s| s.y == 9));
    assert_eq!(recover_secret(&shares[2..3].to_vec(), 1, &f), Ok(9));
}

#[test]
fn shares_are_points_of_the_polynomial() {
    let f = Field::new(101);
    let config = Config {
        secret: 5,
        shares: 3,
        threshold: 3,
    };
    let shares = generate_shares(&config, &vec![5, 3, 2], &f);
    assert_eq!(
        shares,
        vec![
            Share { x: 1, y: 10 },
            Share { x: 2, y: 19 },
            Share { x: 3, y: 32 }
        ]
    );
}

#[test]
fn horner_evaluation() {
    let f = Field::new(101);
    assert_eq!(evaluate_polygon(&f, 4, &vec![5, 3, 2]), 49);
    assert_eq!(evaluate_polygon(&f, 10, &vec![5, 3, 2]), 33);
    assert_eq!(evaluate_polygon(&f, 10, &vec![]), 0);
}

#[test]
fn field_operations() {
    let f = Field::new(7);
    assert_eq!(f.add(5, 4), 2);
    assert_eq!(f.sub(3, 5), 5);
    assert_eq!(f.mul(6, 6), 1);
    let big = field();
    assert_eq!(big.mul(PRIME - 1, PRIME - 1), 1);
    assert_eq!(big.add(PRIME - 1, PRIME - 1), PRIME - 2);
}

#[test]
fn inverse_times_element_is_one() {
    let f = Field::new(101);
    for a in 1..101u64 {
        let b = f.inverse(a).unwrap();
        assert_eq!(f.mul(a, b), 1);
    }
    assert_eq!(f.inverse(0), Err(FieldError::NonInvertible));
    assert_eq!(Field::new(7).inverse(3), Ok(5));
    let big = field();
    let b = big.inverse(123456789).unwrap();
    assert_eq!(big.mul(123456789, b), 1);
    assert_eq!(big.inverse(0), Err(FieldError::NonInvertible));
}

fn args(v: &[&str]) -> Vec<String> {
    v.iter().map(|s| s.to_string()).collect()
}

#[test]
fn config_from_arguments() {
    assert_eq!(
        Config::new(&args(&["prog", "123456789", "6", "4"])),
        Ok(scenario_config())
    );
    assert_eq!(
        Config::new(&args(&["prog", "1", "2"])),
        Err(ConfigError::NotEnoughArguments)
    );
    assert_eq!(
        Config::new(&args(&["prog", "x1", "6", "4"])),
        Err(ConfigError::InvalidSecret)
    );
    assert_eq!(
        Config::new(&args(&["prog", "1", "-6", "4"])),
        Err(ConfigError::InvalidShares)
    );
    assert_eq!(
        Config::new(&args(&["prog", "1", "6", "4294967296"])),
        Err(ConfigError::InvalidThreshold)
    );
    assert_eq!(
        Config::new(&args(&["prog", "1", "4", "6"])),
        Err(ConfigError::ThresholdAboveShares)
    );
    assert_eq!(
        Config::new(&args(&["prog", "18446744073709551615", "4", "4"])).map(|c| c.secret),
        Ok(u64::MAX)
    );
    assert_eq!(
        Config::new(&args(&["prog", "18446744073709551616", "4", "4"])),
        Err(ConfigError::InvalidSecret)
    );
    assert!(!ConfigError::NotEnoughArguments.message().is_empty());
    assert_eq!(
        Config::new(&args(&["prog", "123456789", "6", "0"])),
        Err(ConfigError::InvalidThreshold)
    );
    assert_eq!(
        Config::new(&args(&["prog", "123456789", "0", "0"])),
        Err(ConfigError::InvalidThreshold)
    );
    assert_eq!(
        Config::new(&args(&["prog", "+5", "6", "4"])),
        Err(ConfigError::InvalidSecret)
    );
}

#[test]
fn coefficients_are_the_secret_then_the_draws() {
    assert_eq!(coefficients_from(9, &vec![4, 7, 1]), vec![9, 4, 7, 1]);
    assert_eq!(coefficients_from(9, &vec![]), vec![9]);
    assert_eq!(coefficients_from(3, &vec![4, 7, 1])[1..], [4, 7, 1]);
}

#[test]
fn split_with_supplied_draws() {
    let f = Field::new(101);
    let config = Config {
        secret: 5,
        shares: 3,
        threshold: 3,
    };
    let shares = split_with_draws(&config, &f, &vec![3, 2]).unwrap();
    assert_eq!(
        shares,
        vec![
            Share { x: 1, y: 10 },
            Share { x: 2, y: 19 },
            Share { x: 3, y: 32 }
        ]
    );
    assert_eq!(recover_secret(&shares, 3, &f), Ok(5));
    let bad = Config {
        secret: 5,
        shares: 2,
        threshold: 3,
    };
    assert_eq!(
        split_with_draws(&bad, &f, &vec![3, 2]),
        Err(SplitError::InvalidThreshold)
    );
}
