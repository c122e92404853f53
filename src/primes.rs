use vstd::prelude::*;

verus! {

/// `n` is a prime number: at least 2 and divisible by no number in `2..n`.
pub open spec fn is_prime_spec(n: nat) -> bool {
    &&& n >= 2
    &&& forall|d: nat| 2 <= d < n ==> #[trigger] (n % d) != 0
}

/// `p` is the smallest prime strictly greater than `n`.
pub open spec fn is_next_prime(n: nat, p: nat) -> bool {
    &&& n < p
    &&& is_prime_spec(p)
    &&& forall|q: nat| n < q < p ==> !#[trigger] is_prime_spec(q)
}

proof fn lemma_divisor_of_multiple(n: nat, d: nat, f: nat)
    requires
        f >= 2,
        d >= f,
        d % f == 0,
        n % d == 0,
    ensures
        n % f == 0,
{
    let a = d / f;
    let b = n / d;
    assert(d == f * a) by (nonlinear_arith)
        requires d % f == 0, f >= 2, a == d / f;
    assert(n == d * b) by (nonlinear_arith)
        requires n % d == 0, d >= 2, b == n / d;
    assert(n == f * (a * b)) by (nonlinear_arith)
        requires d == f * a, n == d * b;
    assert((f * (a * b)) % f == 0) by (nonlinear_arith)
        requires f >= 2;
}

proof fn lemma_small_cofactor(n: nat, d: nat, i: nat)
    requires
        2 <= d < n,
        n % d == 0,
        n < i * i,
    ensures
        exists|e: nat| 2 <= e < i && #[trigger] (n % e) == 0,
{
    let q = n / d;
    assert(n == d * q) by (nonlinear_arith)
        requires n % d == 0, d >= 2, q == n / d;
    assert(q >= 2) by (nonlinear_arith)
        requires n == d * q, d < n, d >= 2;
    assert(n % q == 0) by (nonlinear_arith)
        requires n == d * q, q >= 2;
    if d >= i && q >= i {
        assert(d * q >= i * i) by (nonlinear_arith)
            requires d >= i, q >= i;
        assert(false);
    }
    if d < i {
        assert(2 <= d < i && n % d == 0);
    } else {
        assert(2 <= q < i && n % q == 0);
    }
}

/// Decides whether `n` is prime by trial division up to its square root,
/// skipping multiples of two and three.
pub fn is_prime(n: usize) -> (r: bool)
    ensures
        r == is_prime_spec(n as nat),
{
    if n <= 1 {
        return false;
    }
    if n <= 3 {
        assert forall|d: nat| 2 <= d < n as nat implies #[trigger] ((n as nat) % d) != 0 by {
            assert(d == 2 && n == 3);
        }
        return true;
    }
    if n % 2 == 0 {
        assert((n as nat) % 2 == 0);
        return false;
    }
    if n % 3 == 0 {
        assert((n as nat) % 3 == 0);
        return false;
    }
    let ghost nn = n as nat;
    assert forall|d: nat| 2 <= d < 5 implies #[trigger] (nn % d) != 0 by {
        if d == 4 && nn % d == 0 {
            lemma_divisor_of_multiple(nn, 4, 2);
        }
    }
    let mut i: usize = 5;
    loop
        invariant
            i < 0x1_0000_0010,
            nn == n as nat,
            nn >= 5,
            nn % 2 != 0,
            nn % 3 != 0,
            5 <= i,
            i % 6 == 5,
            forall|d: nat| 2 <= d < i ==> #[trigger] (nn % d) != 0,
        ensures
            nn < (i as int) * (i as int),
            forall|d: nat| 2 <= d < i ==> #[trigger] (nn % d) != 0,
        decreases nn + 6 - i,
    {
        assert((i as u128) * (i as u128) < 0x1_0000_0000_0000_0000_0000_0000) by (nonlinear_arith)
            requires i < 0x1_0000_0010;
        if (i as u128) * (i as u128) > n as u128 {
            break;
        }
        assert(i < 0x1_0000_0000) by (nonlinear_arith)
            requires (i as int) * (i as int) <= nn, nn < 0x1_0000_0000_0000_0000;
        assert(i < nn) by (nonlinear_arith)
            requires (i as int) * (i as int) <= nn, i >= 5;
        if n % i == 0 {
            assert(nn % (i as nat) == 0 && 2 <= i < nn);
            return false;
        }
        if n % (i + 2) == 0 {
            assert(nn % ((i + 2) as nat) == 0);
            assert(i + 2 < nn) by (nonlinear_arith)
                requires (i as int) * (i as int) <= nn, i >= 5;
            return false;
        }
        assert forall|d: nat| 2 <= d < i + 6 implies #[trigger] (nn % d) != 0 by {
            if d >= i {
                if d == i + 1 || d == i + 3 || d == i + 5 {
                    assert(d % 2 == 0);
                    if nn % d == 0 {
                        lemma_divisor_of_multiple(nn, d, 2);
                    }
                } else if d == i + 4 {
                    assert(d % 3 == 0);
                    if nn % d == 0 {
                        lemma_divisor_of_multiple(nn, d, 3);
                    }
                }
            }
        }
        assert(i + 6 <= nn) by (nonlinear_arith)
            requires (i as int) * (i as int) <= nn, i >= 5;
        i = i + 6;
    }
    assert forall|d: nat| 2 <= d < nn implies #[trigger] (nn % d) != 0 by {
        if nn % d == 0 {
            lemma_small_cofactor(nn, d, i as nat);
        }
    }
    true
}

/// The smallest prime strictly greater than `start`, or `None` when no prime
/// above `start` fits in `usize`.
pub fn next_prime(start: usize) -> (r: Option<usize>)
    ensures
        match r {
            Some(p) => is_next_prime(start as nat, p as nat),
            None => forall|q: nat| start < q <= usize::MAX ==> !#[trigger] is_prime_spec(q),
        },
{
    if start == usize::MAX {
        return None;
    }
    let mut current: usize = start + 1;
    loop
        invariant
            start < current,
            forall|q: nat| start < q < current ==> !#[trigger] is_prime_spec(q),
        decreases usize::MAX - current,
    {
        if is_prime(current) {
            return Some(current);
        }
        if current == usize::MAX {
            return None;
        }
        current = current + 1;
    }
}

} // verus!
