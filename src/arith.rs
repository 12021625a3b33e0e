use vstd::prelude::*;

verus! {

/// The factorial of `n`, with `0! == 1`.
pub open spec fn fact(n: nat) -> nat
    decreases n,
{
    if n <= 1 {
        1
    } else {
        n * fact((n - 1) as nat)
    }
}

/// Sum of two `i32` values; the sum must fit in an `i32`.
pub fn add(a: i32, b: i32) -> (r: i32)
    requires
        i32::MIN <= a + b <= i32::MAX,
    ensures
        r == a + b,
{
    a + b
}

/// Product of two `i32` values; the product must fit in an `i32`.
pub fn multiply(a: i32, b: i32) -> (r: i32)
    requires
        i32::MIN <= a * b <= i32::MAX,
    ensures
        r == a * b,
{
    a * b
}

/// `n!`; the result must fit in a `u32`.
pub fn factorial(n: u32) -> (r: u32)
    requires
        fact(n as nat) <= u32::MAX,
    ensures
        r == fact(n as nat),
    decreases n,
{
    if n <= 1 {
        1
    } else {
        proof {
            lemma_fact_positive((n - 1) as nat);
            lemma_fact_le_step(n as nat);
        }
        let f = factorial(n - 1);
        n * f
    }
}

/// Every factorial is at least one.
pub proof fn lemma_fact_positive(n: nat)
    ensures
        fact(n) >= 1,
    decreases n,
{
    if n > 1 {
        lemma_fact_positive((n - 1) as nat);
        assert(n * fact((n - 1) as nat) >= 1) by (nonlinear_arith)
            requires n > 1, fact((n - 1) as nat) >= 1;
    }
}

/// For `n >= 1`, `(n - 1)! <= n!`.
proof fn lemma_fact_le_step(n: nat)
    requires
        n >= 1,
    ensures
        fact((n - 1) as nat) <= fact(n),
{
    if n > 1 {
        lemma_fact_positive((n - 1) as nat);
        assert(fact((n - 1) as nat) <= n * fact((n - 1) as nat)) by (nonlinear_arith)
            requires n > 1, fact((n - 1) as nat) >= 1;
    }
}

/// Addition is commutative: `add(a, b)` and `add(b, a)` give the same sum.
pub proof fn lemma_add_commutative(a: int, b: int)
    ensures
        a + b == b + a,
{
}

/// Addition is associative: `add(add(a, b), c)` equals `add(a, add(b, c))`.
pub proof fn lemma_add_associative(a: int, b: int, c: int)
    ensures
        (a + b) + c == a + (b + c),
{
}

/// Multiplying by zero gives zero, for every `a`.
pub proof fn lemma_multiply_by_zero(a: int)
    ensures
        a * 0 == 0,
{
}

/// Factorial recurrence: for `n >= 1`, `n! == n * (n - 1)!`; and `0! == 1! == 1`.
pub proof fn lemma_factorial_recurrence(n: nat)
    requires
        n >= 1,
    ensures
        fact(n) == n * fact((n - 1) as nat),
        fact(0) == 1,
        fact(1) == 1,
{
    if n == 1 {
        assert(fact(0) == 1);
    }
}

} // verus!
