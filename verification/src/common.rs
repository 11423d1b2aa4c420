use vstd::prelude::*;

verus! {

/// n! as a mathematical function.
pub open spec fn spec_factorial(n: nat) -> nat
    decreases n,
{
    if n == 0 {
        1
    } else {
        n * spec_factorial((n - 1) as nat)
    }
}

/// The number of permutations of an n-element set.
pub fn factorial(n: usize) -> (result: usize)
    requires
        spec_factorial(n as nat) <= usize::MAX,
    ensures
        result == spec_factorial(n as nat),
{
    let mut result: usize = 1;
    let mut i: usize = 0;

    while i < n
        invariant
            i <= n,
            result == spec_factorial(i as nat),
            spec_factorial(n as nat) <= usize::MAX,
        decreases n - i,
    {
        proof {
            lemma_factorial_step(i as nat);
            lemma_factorial_monotonic((i + 1) as nat, n as nat);
        }
        i = i + 1;
        result = result * i;
    }

    result
}

pub proof fn lemma_factorial_step(k: nat)
    ensures
        spec_factorial(k + 1) == (k + 1) * spec_factorial(k),
{
    assert(spec_factorial(k + 1) == (k + 1) * spec_factorial(((k + 1) - 1) as nat));
}

pub proof fn lemma_factorial_pos(n: nat)
    ensures
        spec_factorial(n) >= 1,
    decreases n,
{
    if n == 0 {
        assert(spec_factorial(0) == 1);
    } else {
        lemma_factorial_pos((n - 1) as nat);
        let x = spec_factorial((n - 1) as nat);
        assert(spec_factorial(n) == n * x);
        assert(x * 1 <= x * n) by (nonlinear_arith)
            requires
                n >= 1,
                x >= 0,
        ;
        assert(n * x >= x);
    }
}

pub proof fn lemma_factorial_monotonic(m: nat, n: nat)
    requires
        m <= n,
    ensures
        spec_factorial(m) <= spec_factorial(n),
        spec_factorial(m) >= 1,
    decreases n,
{
    lemma_factorial_pos(m);
    if m < n {
        lemma_factorial_monotonic(m, (n - 1) as nat);
        let x = spec_factorial((n - 1) as nat);
        assert(spec_factorial(n) == n * x);
        assert(x * 1 <= x * n) by (nonlinear_arith)
            requires
                n >= 1,
                x >= 0,
        ;
        assert(spec_factorial(m) <= x);
        assert(x <= n * x);
    }
}

} // verus!
