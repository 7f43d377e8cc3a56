use vstd::prelude::*;

verus! {

use vstd::arithmetic::power::{pow, lemma_pow_adds, lemma_pow1, lemma_pow_increases};
use vstd::arithmetic::div_mod::{lemma_fundamental_div_mod, lemma_mod_division_less_than_divisor};

/// `base^exp`, with an overflow check: `None` exactly when the mathematical
/// value does not fit in `u64`.
pub fn checked_pow_u64(base: u64, exp: u32) -> (r: Option<u64>)
    ensures
        r matches Some(v) ==> v == pow(base as int, exp as nat),
        r is None ==> pow(base as int, exp as nat) > u64::MAX,
{
    let mut acc: u64 = 1;
    let mut i: u32 = 0;
    proof {
        vstd::arithmetic::power::lemma_pow0(base as int);
    }
    while i < exp
        invariant
            i <= exp,
            acc == pow(base as int, i as nat),
        decreases exp - i,
    {
        proof {
            lemma_pow1(base as int);
            lemma_pow_adds(base as int, i as nat, 1);
        }
        if base != 0 && acc > u64::MAX / base {
            proof {
                let b = base as int;
                let m = u64::MAX as int;
                lemma_fundamental_div_mod(m, b);
                lemma_mod_division_less_than_divisor(m, b);
                assert((acc as int) * b > m) by (nonlinear_arith)
                    requires
                        acc as int > m / b,
                        b >= 1,
                        m == b * (m / b) + m % b,
                        0 <= m % b < b,
                ;
                lemma_pow_increases(base as nat, (i + 1) as nat, exp as nat);
            }
            return None;
        }
        proof {
            if base != 0 {
                let b = base as int;
                let m = u64::MAX as int;
                lemma_fundamental_div_mod(m, b);
                lemma_mod_division_less_than_divisor(m, b);
                assert((acc as int) * b <= m) by (nonlinear_arith)
                    requires
                        acc as int <= m / b,
                        b >= 1,
                        m == b * (m / b) + m % b,
                        0 <= m % b < b,
                ;
            } else {
                assert((acc as int) * (base as int) == 0) by (nonlinear_arith)
                    requires
                        base as int == 0,
                ;
            }
        }
        acc = acc * base;
        i = i + 1;
    }
    Some(acc)
}

/// `base^exp` on inputs where the result is known to fit in `u64`.
pub fn pow_u64(base: u64, exp: u32) -> (r: u64)
    requires
        pow(base as int, exp as nat) <= u64::MAX,
    ensures
        r == pow(base as int, exp as nat),
{
    match checked_pow_u64(base, exp) {
        Some(v) => v,
        None => {
            proof {
                assert(false);
            }
            0
        },
    }
}

} // verus!
