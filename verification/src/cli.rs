//! Command-line rules of the key-generation benchmark: reading counts and
//! checking the requested configuration.

use vstd::prelude::*;
use vstd::arithmetic::power2::*;
use vstd::bits::*;
use vstd::string::StringSliceAdditionalSpecFns;

verus! {

/// Usage text of the key-generation benchmark.
pub const USAGE: &'static str = "Usage: keygen_lifetime32 --epochs <COUNT|2^EXPONENT> [--runs <COUNT>] [--output-prefix <PATH>]

Benchmarks key generation with the 2^32-lifetime, dimension-46, base-8
BLAKE3 scheme. Key-generation timing excludes serialization and file I/O.

The full run requires a second explicit opt-in:
  cargo run --release --bin keygen_lifetime32 -- \\
    --epochs 2^32 --runs 1 --allow-full-lifetime \\
    --output-prefix artifacts/leansig-blake3-2p32
";

/// The usage text.
pub fn usage() -> (r: &'static str)
    ensures
        r@ == USAGE@,
{
    USAGE
}

/// Why a count is refused.
#[derive(Debug, Clone, Copy, PartialEq, Eq)]
pub enum CountError {
    /// Not a number, or an exponent that is not a `u32`.
    Invalid,
    /// A power of two that does not fit in `usize`.
    DoesNotFit,
    /// Zero.
    Zero,
}

/// Whether `c` is an ASCII digit.
pub open spec fn is_digit(c: u8) -> bool {
    48 <= c <= 57
}

/// The decimal value of a string of ASCII digits.
pub open spec fn decimal_value(b: Seq<u8>) -> nat
    decreases b.len(),
{
    if b.len() == 0 {
        0
    } else {
        decimal_value(b.drop_last()) * 10 + (b.last() - 48) as nat
    }
}

/// The digits of an unsigned number in text: all after an optional `+`.
pub open spec fn unsigned_digits(b: Seq<u8>) -> Seq<u8> {
    if b.len() > 0 && b[0] == 43 {
        b.drop_first()
    } else {
        b
    }
}

/// The number that an unsigned integer's `from_str` reads from `b`: an
/// optional `+` and then one or more ASCII digits (before any bound on the
/// size of the type).
pub open spec fn unsigned_text(b: Seq<u8>) -> Option<nat> {
    let d = unsigned_digits(b);
    if d.len() > 0 && forall|i: int| 0 <= i < d.len() ==> is_digit(#[trigger] d[i]) {
        Some(decimal_value(d))
    } else {
        None
    }
}

/// Whether `b` begins with `2^`.
pub open spec fn is_power_text(b: Seq<u8>) -> bool {
    b.len() >= 2 && b[0] == 50 && b[1] == 94
}

/// The count that `b` denotes before the check for zero: `2^k` for a `u32`
/// exponent `k` (refused when the power does not fit in `usize`), or a
/// decimal `usize`.
pub open spec fn count_value(b: Seq<u8>) -> Result<nat, CountError> {
    if is_power_text(b) {
        match unsigned_text(b.subrange(2, b.len() as int)) {
            Some(k) => if k > u32::MAX {
                Err(CountError::Invalid)
            } else if k < usize::BITS {
                Ok(pow2(k))
            } else {
                Err(CountError::DoesNotFit)
            },
            None => Err(CountError::Invalid),
        }
    } else {
        match unsigned_text(b) {
            Some(v) => if v <= usize::MAX {
                Ok(v)
            } else {
                Err(CountError::Invalid)
            },
            None => Err(CountError::Invalid),
        }
    }
}

/// The count that `b` denotes: as `count_value`, with zero refused.
pub open spec fn count_spec(b: Seq<u8>) -> Result<nat, CountError> {
    match count_value(b) {
        Ok(v) => if v == 0 {
            Err(CountError::Zero)
        } else {
            Ok(v)
        },
        Err(e) => Err(e),
    }
}

/// A longer string of digits has at least the value of its prefix.
proof fn lemma_decimal_prefix(b: Seq<u8>, k: int)
    requires
        0 <= k <= b.len(),
        forall|i: int| 0 <= i < b.len() ==> is_digit(#[trigger] b[i]),
    ensures
        decimal_value(b.subrange(0, k)) <= decimal_value(b),
    decreases b.len() - k,
{
    if k < b.len() {
        lemma_decimal_prefix(b, k + 1);
        let p = b.subrange(0, k + 1);
        assert(p.drop_last() =~= b.subrange(0, k));
    } else {
        assert(b.subrange(0, k) =~= b);
    }
}

/// Reads the digits of `b[lo..]` as an unsigned number no greater than
/// `max`: the number, or `None` when the text is no number or the number
/// exceeds `max`.
fn parse_unsigned(b: &[u8], lo: usize, max: u64) -> (r: Option<u64>)
    requires
        lo <= b@.len(),
        max >= 9,
    ensures
        r == (match unsigned_text(b@.subrange(lo as int, b@.len() as int)) {
            Some(v) => if v <= max {
                Some(v as u64)
            } else {
                None
            },
            None => None,
        }),
{
    let n = b.len();
    let ghost t = b@.subrange(lo as int, n as int);
    let mut i = lo;
    if i < n && b[i] == 43 {
        i = i + 1;
    }
    let ghost start = i as int;
    let ghost d = b@.subrange(start, n as int);
    proof {
        assert(unsigned_digits(t) =~= d);
    }
    if i == n {
        return None;
    }
    let mut v: u64 = 0;
    while i < n
        invariant
            n == b@.len(),
            lo <= start <= i <= n,
            d == b@.subrange(start, n as int),
            d == unsigned_digits(b@.subrange(lo as int, n as int)),
            max >= 9,
            start < n,
            forall|j: int| start <= j < i ==> is_digit(#[trigger] b@[j]),
            v == decimal_value(b@.subrange(start, i as int)),
            v <= max,
        decreases n - i,
    {
        let c = b[i];
        if c < 48 || c > 57 {
            proof {
                assert(d[i - start] == c);
                assert(!is_digit(d[i - start]));
            }
            return None;
        }
        let digit = (c - 48) as u64;
        assert(digit <= 9);
        proof {
            let p = b@.subrange(start, i + 1);
            assert(p.drop_last() =~= b@.subrange(start, i as int));
        }
        if v > (max - digit) / 10 {
            proof {
                assert(v * 10 + digit > max) by (nonlinear_arith)
                    requires
                        v > (max - digit) / 10,
                        digit <= max || digit > max,
                ;
                if forall|j: int| 0 <= j < d.len() ==> is_digit(#[trigger] d[j]) {
                    lemma_decimal_prefix(d, i + 1 - start);
                    assert(d.subrange(0, i + 1 - start) =~= b@.subrange(start, i + 1));
                }
            }
            return None;
        }
        proof {
            assert(v * 10 + digit <= max) by (nonlinear_arith)
                requires
                    v <= (max - digit) / 10,
                    digit <= max,
            ;
        }
        v = v * 10 + digit;
        i = i + 1;
    }
    proof {
        assert(forall|j: int| 0 <= j < d.len() ==> is_digit(#[trigger] d[j]) ==> is_digit(b@[start + j]));
        assert forall|j: int| 0 <= j < d.len() implies is_digit(#[trigger] d[j]) by {
            assert(d[j] == b@[start + j]);
        }
    }
    Some(v)
}

/// Reads a count: `2^k` for a `u32` exponent `k`, or a decimal number.
pub fn parse_count(value: &str) -> (r: Result<usize, CountError>)
    ensures
        match count_spec(value.spec_bytes()) {
            Ok(v) => r == Ok::<usize, CountError>(v as usize),
            Err(e) => r == Err::<usize, CountError>(e),
        },
{
    let b = value.as_bytes();
    let n = b.len();
    let parsed: usize = if n >= 2 && b[0] == 50 && b[1] == 94 {
        let exponent = match parse_unsigned(b, 2, 0xffff_ffff) {
            Some(k) => k,
            None => {
                return Err(CountError::Invalid);
            },
        };
        if exponent >= usize::BITS as u64 {
            return Err(CountError::DoesNotFit);
        }
        proof {
            lemma_usize_pow2_no_overflow(exponent as nat);
            lemma_usize_shl_is_mul(1, exponent as usize);
        }
        1usize << (exponent as usize)
    } else {
        match parse_unsigned(b, 0, usize::MAX as u64) {
            Some(v) => v as usize,
            None => {
                proof {
                    assert(b@.subrange(0, n as int) =~= b@);
                }
                return Err(CountError::Invalid);
            },
        }
    };
    proof {
        assert(b@.subrange(0, n as int) =~= b@);
    }
    if parsed == 0 {
        return Err(CountError::Zero);
    }
    Ok(parsed)
}

/// Why a requested key-generation run is refused.
#[derive(Debug, Clone, Copy, PartialEq, Eq)]
pub enum ConfigError {
    /// More epochs than the scheme's lifetime.
    EpochsExceedLifetime,
    /// Key files are written for a single run only.
    OutputPrefixNeedsOneRun,
    /// A full-lifetime run was not confirmed.
    FullLifetimeNotConfirmed,
}

/// Checks a requested run, in this order: the epochs fit in the lifetime,
/// key files are asked for with a single run only, and a full-lifetime run
/// is confirmed.
pub fn check_config(
    epochs: usize,
    runs: usize,
    has_output_prefix: bool,
    allow_full_lifetime: bool,
    lifetime: u64,
) -> (r: Result<(), ConfigError>)
    ensures
        r == (if epochs > lifetime {
            Err::<(), ConfigError>(ConfigError::EpochsExceedLifetime)
        } else if has_output_prefix && runs != 1 {
            Err::<(), ConfigError>(ConfigError::OutputPrefixNeedsOneRun)
        } else if epochs == lifetime && !allow_full_lifetime {
            Err::<(), ConfigError>(ConfigError::FullLifetimeNotConfirmed)
        } else {
            Ok::<(), ConfigError>(())
        }),
{
    if epochs as u64 > lifetime {
        return Err(ConfigError::EpochsExceedLifetime);
    }
    if has_output_prefix && runs != 1 {
        return Err(ConfigError::OutputPrefixNeedsOneRun);
    }
    if epochs as u64 == lifetime && !allow_full_lifetime {
        return Err(ConfigError::FullLifetimeNotConfirmed);
    }
    Ok(())
}

} // verus!
