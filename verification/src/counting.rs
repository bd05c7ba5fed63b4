//! Factorials, and how many of them fit in 128 bits.

use ::factorial::Factorial;
use vstd::prelude::*;

verus! {

/// `n!`, the number of orderings of `n` things.
pub open spec fn factorial(n: nat) -> nat
    decreases n,
{
    if n == 0 {
        1
    } else {
        n * factorial((n - 1) as nat)
    }
}

/// `n!` where it fits in 128 bits.
pub open spec fn representable_factorial(n: nat) -> Option<u128> {
    if factorial(n) <= u128::MAX {
        Some(factorial(n) as u128)
    } else {
        None
    }
}

/// The largest argument whose factorial fits in 128 bits.
pub const LARGEST_REPRESENTABLE: usize = 34;

/// Calls `Factorial::checked_factorial` of the crate `factorial` on a `u128`.
///
/// Not proved: that the call returns `n!` where that fits in 128 bits and
/// `None` where it does not. Only arguments up to 34 are admitted; the crate
/// answers them from its table of the factorials that fit. Larger arguments
/// make it build a prime sieve as large as the argument.
#[verifier::external_body]
fn table_factorial(n: u128) -> (value: Option<u128>)
    requires
        n <= LARGEST_REPRESENTABLE,
    ensures
        value == representable_factorial(n as nat),
{
    n.checked_factorial()
}

/// A factorial is at least 1.
pub proof fn lemma_factorial_positive(n: nat)
    ensures
        factorial(n) >= 1,
    decreases n,
{
    if n > 0 {
        lemma_factorial_positive((n - 1) as nat);
        assert(n * factorial((n - 1) as nat) >= 1) by (nonlinear_arith)
            requires
                n >= 1,
                factorial((n - 1) as nat) >= 1,
        ;
    }
}

/// The factorial never decreases as its argument grows.
pub proof fn lemma_factorial_monotonic(m: nat, n: nat)
    requires
        m <= n,
    ensures
        factorial(m) <= factorial(n),
    decreases n,
{
    if m < n {
        lemma_factorial_monotonic(m, (n - 1) as nat);
        lemma_factorial_positive((n - 1) as nat);
        assert(n * factorial((n - 1) as nat) >= factorial((n - 1) as nat)) by (nonlinear_arith)
            requires
                n >= 1,
                factorial((n - 1) as nat) >= 1,
        ;
    }
}

proof fn lemma_factorial_values()
    ensures
        factorial(34) == 295232799039604140847618609643520000000,
        factorial(35) == 10333147966386144929666651337523200000000,
{
    assert(factorial(0) == 1);
    assert(factorial(1) == 1);
    assert(factorial(2) == 2);
    assert(factorial(3) == 6);
    assert(factorial(4) == 24);
    assert(factorial(5) == 120);
    assert(factorial(6) == 720);
    assert(factorial(7) == 5040);
    assert(factorial(8) == 40320);
    assert(factorial(9) == 362880);
    assert(factorial(10) == 3628800);
    assert(factorial(11) == 39916800);
    assert(factorial(12) == 479001600);
    assert(factorial(13) == 6227020800);
    assert(factorial(14) == 87178291200);
    assert(factorial(15) == 1307674368000);
    assert(factorial(16) == 20922789888000);
    assert(factorial(17) == 355687428096000);
    assert(factorial(18) == 6402373705728000);
    assert(factorial(19) == 121645100408832000);
    assert(factorial(20) == 2432902008176640000);
    assert(factorial(21) == 51090942171709440000);
    assert(factorial(22) == 1124000727777607680000);
    assert(factorial(23) == 25852016738884976640000);
    assert(factorial(24) == 620448401733239439360000);
    assert(factorial(25) == 15511210043330985984000000);
    assert(factorial(26) == 403291461126605635584000000);
    assert(factorial(27) == 10888869450418352160768000000);
    assert(factorial(28) == 304888344611713860501504000000);
    assert(factorial(29) == 8841761993739701954543616000000);
    assert(factorial(30) == 265252859812191058636308480000000);
    assert(factorial(31) == 8222838654177922817725562880000000);
    assert(factorial(32) == 263130836933693530167218012160000000);
    assert(factorial(33) == 8683317618811886495518194401280000000);
    assert(factorial(34) == 295232799039604140847618609643520000000);
    assert(factorial(35) == 10333147966386144929666651337523200000000);
}

/// The factorial of `n` fits in 128 bits exactly when `n` is at most 34.
pub proof fn lemma_representable_up_to_34(n: nat)
    ensures
        representable_factorial(n) is Some <==> n <= LARGEST_REPRESENTABLE,
{
    lemma_factorial_values();
    if n <= 34 {
        lemma_factorial_monotonic(n, 34);
    } else {
        lemma_factorial_monotonic(35, n);
    }
}

/// `n!` where it fits in 128 bits, and `None` where it does not.
pub fn checked_factorial(n: usize) -> (value: Option<u128>)
    ensures
        value == representable_factorial(n as nat),
{
    proof {
        lemma_representable_up_to_34(n as nat);
    }
    if n <= LARGEST_REPRESENTABLE {
        table_factorial(n as u128)
    } else {
        None
    }
}

} // verus!
