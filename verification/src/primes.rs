//! Prime-power factorisation of positive integers.
use vstd::prelude::*;

verus! {

/// The least divisor of `n` from `d` on (`n` itself where none lies below it).
pub open spec fn least_divisor_from(n: nat, d: nat) -> nat
    decreases n - d,
{
    if d == 0 || d >= n {
        n
    } else if n % d == 0 {
        d
    } else {
        least_divisor_from(n, d + 1)
    }
}

/// How often `p` divides `n`.
pub open spec fn multiplicity(p: nat, n: nat) -> nat
    decreases n,
{
    if p >= 2 && n >= 1 && n % p == 0 && n / p < n {
        1 + multiplicity(p, n / p)
    } else {
        0
    }
}

/// `n` with every factor `p` divided out.
pub open spec fn strip(p: nat, n: nat) -> nat
    decreases n,
{
    if p >= 2 && n >= 1 && n % p == 0 && n / p < n {
        strip(p, n / p)
    } else {
        n
    }
}

/// The prime factorisation of `n`: its least prime factor with its multiplicity, then
/// the factorisation of what is left once that prime is divided out.
pub open spec fn prime_powers(n: nat) -> Seq<(nat, nat)>
    decreases n,
{
    if n <= 1 {
        Seq::empty()
    } else {
        let p = least_divisor_from(n, 2);
        let rest = strip(p, n);
        if rest < n {
            seq![(p, multiplicity(p, n))] + prime_powers(rest)
        } else {
            Seq::empty()
        }
    }
}

/// `p` is prime.
pub open spec fn is_prime(p: nat) -> bool {
    p >= 2 && forall|d: nat| 2 <= d < p ==> #[trigger] (p % d) != 0
}

proof fn lemma_div_smaller(n: nat, p: nat)
    requires
        p >= 2,
        n >= 1,
    ensures
        n / p < n,
{
    assert(n / p < n) by (nonlinear_arith)
        requires
            p >= 2,
            n >= 1,
    ;
}

/// Past divisors that do not divide `n`, the least divisor stays the same.
proof fn lemma_least_divisor_skip(n: nat, d: nat, e: nat)
    requires
        1 <= d <= e <= n,
        forall|k: nat| d <= k < e ==> #[trigger] (n % k) != 0,
    ensures
        least_divisor_from(n, d) == least_divisor_from(n, e),
    decreases e - d,
{
    if d < e {
        lemma_least_divisor_skip(n, d + 1, e);
    }
}

proof fn lemma_strip_smaller(p: nat, n: nat)
    requires
        p >= 2,
        n >= 1,
    ensures
        1 <= strip(p, n) <= n,
        n % p == 0 ==> strip(p, n) < n,
    decreases n,
{
    if n % p == 0 {
        lemma_div_smaller(n, p);
        vstd::arithmetic::div_mod::lemma_fundamental_div_mod(n as int, p as int);
        assert(n / p >= 1) by (nonlinear_arith)
            requires
                n % p == 0,
                n >= 1,
                p >= 2,
                n == p * (n / p) + n % p,
        ;
        lemma_strip_smaller(p, n / p);
    }
}

proof fn lemma_divisor_of_multiple(k: nat, c: nat, w: nat)
    requires
        k >= 1,
        c % k == 0,
    ensures
        (c * w) % k == 0,
{
    let j = c / k;
    assert(c == k * j) by {
        vstd::arithmetic::div_mod::lemma_fundamental_div_mod(c as int, k as int);
    }
    assert(c * w == (j * w) * k) by (nonlinear_arith)
        requires
            c == k * j,
    ;
    vstd::arithmetic::div_mod::lemma_mod_multiples_basic((j * w) as int, k as int);
}

/// Where no number in `2..p` divides `c` and `p * p > c`, `c` has no divisor in `2..c`.
proof fn lemma_no_small_divisor(c: nat, p: nat)
    requires
        2 <= p,
        c < p * p,
        forall|k: nat| 2 <= k < p ==> #[trigger] (c % k) != 0,
    ensures
        forall|k: nat| 2 <= k < c ==> #[trigger] (c % k) != 0,
{
    assert forall|k: nat| 2 <= k < c implies #[trigger] (c % k) != 0 by {
        if k >= p && c % k == 0 {
            let j = c / k;
            vstd::arithmetic::div_mod::lemma_fundamental_div_mod(c as int, k as int);
            assert(c == k * j);
            assert(2 <= j < p) by (nonlinear_arith)
                requires
                    c == k * j,
                    k < c,
                    k >= p,
                    c < p * p,
                    p >= 2,
            ;
            assert(c == j * k);
            vstd::arithmetic::div_mod::lemma_mod_multiples_basic(k as int, j as int);
            assert((c % j) == 0);
        }
    }
}

/// The prime-power factorisation of `n`, smallest prime first, by trial division.
pub fn factorize(n: usize) -> (r: Vec<(usize, usize)>)
    ensures
        r@.len() == prime_powers(n as nat).len(),
        forall|i: int| 0 <= i < r@.len() ==> (r@[i].0 as nat, r@[i].1 as nat) == #[trigger] prime_powers(n as nat)[i],
{
    let mut out: Vec<(usize, usize)> = Vec::new();
    if n <= 1 {
        return out;
    }
    let mut cur = n;
    let mut p: usize = 2;
    let ghost done_part = Seq::<(nat, nat)>::empty();
    while cur > 1
        invariant
            2 <= p <= n + 1,
            1 <= cur <= n,
            forall|k: nat| 2 <= k < p ==> #[trigger] ((cur as nat) % k) != 0,
            done_part.len() == out@.len(),
            forall|i: int| 0 <= i < out@.len() ==> (out@[i].0 as nat, out@[i].1 as nat) == #[trigger] done_part[i],
            done_part + prime_powers(cur as nat) == prime_powers(n as nat),
        decreases (n + 1 - p) + cur,
    {
        if p > cur / p {
            let ghost c = cur as nat;
            proof {
                vstd::arithmetic::div_mod::lemma_fundamental_div_mod(c as int, p as int);
                vstd::arithmetic::div_mod::lemma_mod_pos_bound(c as int, p as int);
                assert(c < p * p) by (nonlinear_arith)
                    requires
                        p > c / (p as nat),
                        p >= 2,
                        c == (p as nat) * (c / (p as nat)) + c % (p as nat),
                        c % (p as nat) < p,
                {
                }
                vstd::arithmetic::div_mod::lemma_fundamental_div_mod(c as int, p as int);
                vstd::arithmetic::div_mod::lemma_mod_pos_bound(c as int, p as int);
                lemma_no_small_divisor(c, p as nat);
                lemma_least_divisor_skip(c, 2, c);
                assert(c % c == 0 && c / c == 1) by {
                    vstd::arithmetic::div_mod::lemma_mod_self_0(c as int);
                    vstd::arithmetic::div_mod::lemma_div_by_self(c as int);
                }
                assert(1nat % c == 1) by {
                    vstd::arithmetic::div_mod::lemma_small_mod(1, c);
                }
                assert(multiplicity(c, 1) == 0);
                assert(multiplicity(c, c) == 1);
                assert(strip(c, 1) == 1);
                assert(strip(c, c) == 1);
                assert(prime_powers(1) == Seq::<(nat, nat)>::empty());
                assert(prime_powers(c) =~= seq![(c, 1nat)]);
                done_part = done_part.push((c, 1nat));
            }
            out.push((cur, 1));
            cur = 1;
            proof {
                assert(done_part + prime_powers(1) =~= prime_powers(n as nat));
                assert forall|k: nat| 2 <= k < p implies #[trigger] ((cur as nat) % k) != 0 by {
                    vstd::arithmetic::div_mod::lemma_small_mod(1, k);
                }
            }
        } else {
            proof {
                let c = cur as nat;
                let q = c / (p as nat);
                vstd::arithmetic::div_mod::lemma_fundamental_div_mod(c as int, p as int);
                vstd::arithmetic::div_mod::lemma_mod_pos_bound(c as int, p as int);
                assert(q >= p);
                assert((p as nat) * q >= (p as nat) * (p as nat)) by (nonlinear_arith)
                    requires
                        q >= p,
                ;
                assert((p as nat) * (p as nat) >= 2 * (p as nat)) by (nonlinear_arith)
                    requires
                        p >= 2,
                ;
                assert(p < cur);
            }
            if cur % p == 0 {
                let ghost c0 = cur as nat;
                let ghost pn = p as nat;
                proof {
                    vstd::arithmetic::div_mod::lemma_fundamental_div_mod(c0 as int, p as int);
                    lemma_least_divisor_skip(c0, 2, pn);
                    lemma_strip_smaller(pn, c0);
                }
                let mut e: usize = 0;
                let ghost mut pw: nat = 1;
                while cur % p == 0
                    invariant
                        p == pn,
                        pn >= 2,
                        1 <= cur,
                        e + cur <= c0,
                        c0 <= usize::MAX,
                        e + multiplicity(pn, cur as nat) == multiplicity(pn, c0),
                        strip(pn, cur as nat) == strip(pn, c0),
                        c0 == (cur as nat) * pw,
                    decreases cur,
                {
                    let ghost c = cur as nat;
                    proof {
                        lemma_div_smaller(c, pn);
                        vstd::arithmetic::div_mod::lemma_fundamental_div_mod(c as int, pn as int);
                        assert(c / pn >= 1) by (nonlinear_arith)
                            requires
                                c % pn == 0,
                                c >= 1,
                                pn >= 2,
                                c == pn * (c / pn) + c % pn,
                        ;
                        assert(c0 == (c / pn) * (pn * pw)) by (nonlinear_arith)
                            requires
                                c0 == c * pw,
                                c == pn * (c / pn) + c % pn,
                                c % pn == 0,
                        ;
                        pw = pn * pw;
                    }
                    cur = cur / p;
                    e = e + 1;
                }
                proof {
                    let c = cur as nat;
                    assert((c % pn) != 0);
                    assert(multiplicity(pn, c) == 0);
                    assert(strip(pn, c) == c);
                    assert forall|k: nat| 2 <= k < p + 1 implies #[trigger] (c % k) != 0 by {
                        if k < p && c % k == 0 {
                            lemma_divisor_of_multiple(k, c, pw);
                            assert(c0 % k == 0);
                        }
                    }
                    assert(prime_powers(c0) == seq![(pn, multiplicity(pn, c0))] + prime_powers(c));
                    done_part = done_part.push((pn, multiplicity(pn, c0)));
                    assert(done_part + prime_powers(c) =~= prime_powers(n as nat));
                }
                out.push((p, e));
            }
            p = p + 1;
        }
    }
    proof {
        assert(done_part + prime_powers(1) =~= done_part);
    }
    out
}

/// `p` to the power `e`.
pub open spec fn power(p: nat, e: nat) -> nat
    decreases e,
{
    if e == 0 {
        1
    } else {
        p * power(p, (e - 1) as nat)
    }
}

/// The product of `p^e` over the pairs.
pub open spec fn factor_product(s: Seq<(nat, nat)>) -> nat
    decreases s.len(),
{
    if s.len() == 0 {
        1
    } else {
        power(s[0].0, s[0].1) * factor_product(s.drop_first())
    }
}

/// `d` divides `x` as natural numbers.
proof fn lemma_mod_transitive(x: nat, y: nat, d: nat)
    requires
        d >= 1,
        y >= 1,
        x % y == 0,
        y % d == 0,
    ensures
        x % d == 0,
{
    vstd::arithmetic::div_mod::lemma_fundamental_div_mod(x as int, y as int);
    vstd::arithmetic::div_mod::lemma_fundamental_div_mod(y as int, d as int);
    let a = x / y;
    let b = y / d;
    assert(x == (a * b) * d) by (nonlinear_arith)
        requires
            x == y * a,
            y == d * b,
    ;
    vstd::arithmetic::div_mod::lemma_mod_multiples_basic((a * b) as int, d as int);
}

/// The least divisor from `s` on divides `n`, and nothing between `s` and it does.
proof fn lemma_least_divisor(n: nat, s: nat)
    requires
        1 <= s,
        2 <= n,
    ensures
        s <= least_divisor_from(n, s) || least_divisor_from(n, s) == n,
        least_divisor_from(n, s) <= n,
        n % least_divisor_from(n, s) == 0,
        forall|d: nat| s <= d < least_divisor_from(n, s) ==> #[trigger] (n % d) != 0,
    decreases n - s,
{
    if s >= n {
        vstd::arithmetic::div_mod::lemma_mod_self_0(n as int);
    } else if n % s == 0 {
    } else {
        lemma_least_divisor(n, s + 1);
    }
}

/// `n` is `p` to its multiplicity times what is left once `p` is divided out.
proof fn lemma_strip_product(p: nat, n: nat)
    requires
        p >= 2,
        n >= 1,
    ensures
        n == power(p, multiplicity(p, n)) * strip(p, n),
        strip(p, n) % p != 0,
        n % p == 0 ==> multiplicity(p, n) >= 1,
    decreases n,
{
    if n % p == 0 {
        lemma_div_smaller(n, p);
        vstd::arithmetic::div_mod::lemma_fundamental_div_mod(n as int, p as int);
        assert(n / p >= 1) by (nonlinear_arith)
            requires
                n % p == 0,
                n >= 1,
                p >= 2,
                n == p * (n / p) + n % p,
        ;
        lemma_strip_product(p, n / p);
        let e = multiplicity(p, n / p);
        assert(n == p * (power(p, e) * strip(p, n / p))) by (nonlinear_arith)
            requires
                n == p * (n / p),
                n / p == power(p, e) * strip(p, n / p),
        ;
        assert(power(p, e + 1) == p * power(p, e));
        let st = strip(p, n / p);
        assert(p * (power(p, e) * st) == (p * power(p, e)) * st) by (nonlinear_arith);
        assert(multiplicity(p, n) == e + 1);
        assert(strip(p, n) == st);
    } else {
        assert(multiplicity(p, n) == 0);
        assert(strip(p, n) == n);
        assert(power(p, 0) == 1);
    }
}

/// What `prime_powers` lists is the prime factorisation of `n`: primes in increasing
/// order, each dividing `n` and with a positive exponent, whose powers multiply to `n`.
pub proof fn lemma_prime_powers_factor(n: nat)
    requires
        n >= 1,
    ensures
        factor_product(prime_powers(n)) == n,
        forall|i: int|
            0 <= i < prime_powers(n).len() ==> {
                &&& is_prime(#[trigger] prime_powers(n)[i].0)
                &&& prime_powers(n)[i].1 >= 1
                &&& n % prime_powers(n)[i].0 == 0
            },
        forall|i: int|
            0 <= i && i + 1 < prime_powers(n).len() ==> #[trigger] prime_powers(n)[i].0 < prime_powers(n)[i + 1].0,
        prime_powers(n).len() > 0 ==> forall|d: nat| 2 <= d < prime_powers(n)[0].0 ==> #[trigger] (n % d) != 0,
    decreases n,
{
    if n > 1 {
        let p = least_divisor_from(n, 2);
        lemma_least_divisor(n, 2);
        let rest = strip(p, n);
        lemma_strip_smaller(p, n);
        lemma_strip_product(p, n);
        let e = multiplicity(p, n);
        let s = prime_powers(n);
        let r = prime_powers(rest);
        assert(s == seq![(p, e)] + r);
        assert(s.drop_first() =~= r);
        lemma_prime_powers_factor(rest);
        // rest divides n
        assert(n % rest == 0) by {
            assert(n == rest * power(p, e)) by (nonlinear_arith)
                requires
                    n == power(p, e) * rest,
            ;
            vstd::arithmetic::div_mod::lemma_mod_multiples_basic(power(p, e) as int, rest as int);
        }
        // p is prime
        assert forall|d: nat| 2 <= d < p implies #[trigger] (p % d) != 0 by {
            if p % d == 0 {
                lemma_mod_transitive(n, p, d);
            }
        }
        assert forall|i: int| 0 <= i < s.len() implies {
            &&& is_prime(#[trigger] s[i].0)
            &&& s[i].1 >= 1
            &&& n % s[i].0 == 0
        } by {
            if i > 0 {
                assert(s[i] == r[i - 1]);
                lemma_mod_transitive(n, rest, r[i - 1].0);
            }
        }
        assert forall|i: int| 0 <= i && i + 1 < s.len() implies #[trigger] s[i].0 < s[i + 1].0 by {
            if i == 0 {
                let q = r[0].0;
                assert(rest % q == 0);
                lemma_mod_transitive(n, rest, q);
                // q is at least p, as nothing below p divides n, and it is not p
                if q < p {
                    assert(n % q != 0);
                }
                if q == p {
                    assert(rest % p != 0);
                }
            } else {
                assert(s[i] == r[i - 1]);
                assert(s[i + 1] == r[i]);
            }
        }
    }
}

} // verus!
