use vstd::prelude::*;

use crate::sequences::{Intersperse, LazySequence, Prepend, Skip, StepBy, Zip};

verus! {

/// `n!`.
pub open spec fn fact(n: nat) -> nat
    decreases n,
{
    if n == 0 {
        1
    } else {
        n * fact((n - 1) as nat)
    }
}

/// A fraction `num / den`, as it was produced (not reduced).
#[derive(Debug, Clone, Copy, PartialEq, Eq, Structural)]
pub struct Frac {
    pub num: i64,
    pub den: i64,
}

/// The fraction `0 / 1`.
pub open spec fn zero_frac() -> Frac {
    Frac { num: 0, den: 1 }
}

/// Position `k` of the positive integers: `k + 1`, while it fits an `i64`.
pub open spec fn natural_at(k: nat) -> Option<i64> {
    if k + 1 <= i64::MAX {
        Some((k + 1) as i64)
    } else {
        None
    }
}

/// Position `k` of `1, -1, 1, -1, ...`.
pub open spec fn sign_at(k: nat) -> i64 {
    if k % 2 == 0 {
        1i64
    } else {
        -1i64
    }
}

/// `k!`, while it fits an `i64`.
pub open spec fn factorial_at(k: nat) -> Option<i64> {
    if fact(k) <= i64::MAX {
        Some(fact(k) as i64)
    } else {
        None
    }
}

/// `1 / f` for a value `f`.
pub open spec fn reciprocal(f: Option<i64>) -> Option<Frac> {
    match f {
        Some(v) => Some(Frac { num: 1, den: v }),
        None => None,
    }
}

/// A fraction multiplied by `s`.
pub open spec fn with_sign(x: Option<Frac>, s: i64) -> Option<Frac> {
    match x {
        Some(v) => Some(Frac { num: (v.num * s) as i64, den: v.den }),
        None => None,
    }
}

/// The Taylor coefficient of `x^k` in `exp(x)`: `1 / k!`.
pub open spec fn exp_at(k: nat) -> Option<Frac> {
    reciprocal(factorial_at(k))
}

/// A zero coefficient, there when the coefficient after it is there.
pub open spec fn zero_before(next: Option<Frac>) -> Option<Frac> {
    if next is Some {
        Some(zero_frac())
    } else {
        None
    }
}

/// The Taylor coefficient of `x^k` in `cosh(x)`.
pub open spec fn cosh_at(k: nat) -> Option<Frac> {
    if k % 2 == 0 {
        exp_at(k)
    } else {
        zero_before(exp_at(k + 1))
    }
}

/// The Taylor coefficient of `x^k` in `cos(x)`.
pub open spec fn cos_at(k: nat) -> Option<Frac> {
    if k % 2 == 0 {
        with_sign(exp_at(k), sign_at(k / 2))
    } else {
        zero_before(exp_at(k + 1))
    }
}

/// The Taylor coefficient of `x^k` in `sinh(x)`.
pub open spec fn sinh_at(k: nat) -> Option<Frac> {
    if k == 0 {
        Some(zero_frac())
    } else if k % 2 == 1 {
        exp_at(k)
    } else {
        zero_before(exp_at(k + 1))
    }
}

/// The Taylor coefficient of `x^k` in `sin(x)`.
pub open spec fn sin_at(k: nat) -> Option<Frac> {
    if k == 0 {
        Some(zero_frac())
    } else if k % 2 == 1 {
        with_sign(exp_at(k), sign_at(k / 2))
    } else {
        zero_before(exp_at(k + 1))
    }
}

/// The Taylor coefficient of `x^k` in `ln(1 + x)`: `(-1)^(k+1) / k`.
pub open spec fn ln1p_at(k: nat) -> Option<Frac> {
    if k == 0 {
        Some(zero_frac())
    } else if k <= i64::MAX {
        Some(Frac { num: sign_at((k - 1) as nat), den: k as i64 })
    } else {
        None
    }
}

/// `n!` is at least one.
proof fn lemma_fact_positive(n: nat)
    ensures
        fact(n) >= 1,
    decreases n,
{
    if n > 0 {
        lemma_fact_positive((n - 1) as nat);
        assert(n * fact((n - 1) as nat) >= 1) by (nonlinear_arith)
            requires
                n >= 1,
                fact((n - 1) as nat) >= 1,
        ;
    }
}

/// Factorials never decrease.
proof fn lemma_fact_monotone(i: nat, j: nat)
    requires
        i <= j,
    ensures
        fact(i) <= fact(j),
    decreases j - i,
{
    if i < j {
        lemma_fact_monotone(i, (j - 1) as nat);
        lemma_fact_positive((j - 1) as nat);
        assert(fact((j - 1) as nat) <= j * fact((j - 1) as nat)) by (nonlinear_arith)
            requires
                j >= 1,
                fact((j - 1) as nat) >= 1,
        ;
    }
}

/// From three on, `n!` exceeds `n`.
proof fn lemma_fact_exceeds(n: nat)
    requires
        n >= 3,
    ensures
        fact(n) > n,
{
    lemma_fact_monotone(2, (n - 1) as nat);
    assert(fact(2) == 2) by {
        reveal_with_fuel(fact, 3);
    }
    assert(n * fact((n - 1) as nat) > n) by (nonlinear_arith)
        requires
            n >= 3,
            fact((n - 1) as nat) >= 2,
    ;
}

/// `1, 2, 3, ...`, up to `i64::MAX`.
pub struct Naturals {
    next_value: Option<i64>,
}

impl LazySequence for Naturals {
    type Item = i64;

    closed spec fn wf(&self) -> bool {
        self.next_value matches Some(v) ==> v >= 1
    }

    closed spec fn at(&self, k: nat) -> Option<i64> {
        match self.next_value {
            Some(v) => if v + k <= i64::MAX {
                Some((v + k) as i64)
            } else {
                None
            },
            None => None,
        }
    }

    proof fn lemma_fused(&self, k: nat) {
    }

    fn next(&mut self) -> (r: Option<i64>) {
        match self.next_value {
            Some(v) => {
                self.next_value = if v < i64::MAX {
                    Some(v + 1)
                } else {
                    None
                };
                Some(v)
            },
            None => None,
        }
    }
}

/// `1, -1, 1, -1, ...`.
pub struct Alternating {
    positive: bool,
}

impl LazySequence for Alternating {
    type Item = i64;

    closed spec fn wf(&self) -> bool {
        true
    }

    closed spec fn at(&self, k: nat) -> Option<i64> {
        Some(
            if (k % 2 == 0) == self.positive {
                1i64
            } else {
                -1i64
            },
        )
    }

    proof fn lemma_fused(&self, k: nat) {
    }

    fn next(&mut self) -> (r: Option<i64>) {
        let r: i64 = if self.positive {
            1
        } else {
            -1
        };
        self.positive = !self.positive;
        Some(r)
    }
}

/// `0!, 1!, 2!, ...`, while they fit an `i64`; kept as a running product
/// `prod` and its next factor `k`.
pub struct Factorial {
    prod: Option<i64>,
    k: i64,
}

impl LazySequence for Factorial {
    type Item = i64;

    closed spec fn wf(&self) -> bool {
        &&& self.k >= 1
        &&& self.prod matches Some(p) ==> p == fact((self.k - 1) as nat)
    }

    closed spec fn at(&self, j: nat) -> Option<i64> {
        match self.prod {
            Some(_) => factorial_at((self.k - 1 + j) as nat),
            None => None,
        }
    }

    proof fn lemma_fused(&self, j: nat) {
        lemma_fact_monotone((self.k - 1 + j) as nat, (self.k + j) as nat);
    }

    fn next(&mut self) -> (r: Option<i64>) {
        match self.prod {
            Some(p) => {
                let k = self.k;
                if k == i64::MAX {
                    self.prod = None;
                    proof {
                        lemma_fact_exceeds(k as nat);
                        assert forall|j: nat| #[trigger] old(self).at(j + 1) is None by {
                            lemma_fact_monotone(k as nat, (k + j) as nat);
                        }
                    }
                } else {
                    self.prod = p.checked_mul(k);
                    self.k = k + 1;
                    proof {
                        assert(fact(k as nat) == k * fact((k - 1) as nat));
                        if self.prod is None {
                            assert forall|j: nat| #[trigger] old(self).at(j + 1) is None by {
                                lemma_fact_monotone(k as nat, (k + j) as nat);
                            }
                        }
                    }
                }
                Some(p)
            },
            None => None,
        }
    }
}

/// `1 / 0!, 1 / 1!, 1 / 2!, ...`: the Taylor coefficients of `exp(x)`.
pub struct TExp {
    factorials: Factorial,
}

impl LazySequence for TExp {
    type Item = Frac;

    closed spec fn wf(&self) -> bool {
        self.factorials.wf()
    }

    closed spec fn at(&self, k: nat) -> Option<Frac> {
        reciprocal(self.factorials.at(k))
    }

    proof fn lemma_fused(&self, k: nat) {
        self.factorials.lemma_fused(k);
    }

    fn next(&mut self) -> (r: Option<Frac>) {
        let one: i64 = 1;
        match self.factorials.next() {
            Some(x) => Some(Frac { num: one, den: x }),
            None => None,
        }
    }
}

/// The values of a source of fractions, multiplied by `1, -1, 1, -1, ...`.
pub struct SignAlternated<S> {
    pairs: Zip<S, Alternating>,
}

impl<S: LazySequence<Item = Frac>> SignAlternated<S> {
    /// Multiplies the values of `src` by `1, -1, 1, -1, ...` in turn.
    pub fn new(src: S) -> (r: Self)
        requires
            src.wf(),
            forall|k: nat| #[trigger] src.at(k) matches Some(x) ==> x.num > i64::MIN,
        ensures
            r.wf(),
            forall|k: nat| #[trigger] r.at(k) == with_sign(src.at(k), sign_at(k)),
    {
        let signs = alternating();
        SignAlternated { pairs: Zip::new(src, signs) }
    }
}

impl<S: LazySequence<Item = Frac>> LazySequence for SignAlternated<S> {
    type Item = Frac;

    closed spec fn wf(&self) -> bool {
        &&& self.pairs.wf()
        &&& forall|k: nat| #[trigger]
            self.pairs.at(k) matches Some((x, s)) ==> x.num > i64::MIN && (s == 1 || s == -1)
    }

    closed spec fn at(&self, k: nat) -> Option<Frac> {
        match self.pairs.at(k) {
            Some((x, s)) => Some(Frac { num: (x.num * s) as i64, den: x.den }),
            None => None,
        }
    }

    proof fn lemma_fused(&self, k: nat) {
        self.pairs.lemma_fused(k);
    }

    fn next(&mut self) -> (r: Option<Frac>) {
        match self.pairs.next() {
            Some((x, s)) => {
                proof {
                    assert(old(self).pairs.at(0) == Some((x, s)));
                    assert(-i64::MAX <= x.num * s <= i64::MAX) by (nonlinear_arith)
                        requires
                            x.num > i64::MIN,
                            s == 1 || s == -1,
                    ;
                }
                Some(Frac { num: s * x.num, den: x.den })
            },
            None => None,
        }
    }
}

/// `1 / 1, -1 / 2, 1 / 3, ...`: each positive integer under a sign.
pub struct Ln1pTail {
    pairs: Zip<Naturals, Alternating>,
}

impl LazySequence for Ln1pTail {
    type Item = Frac;

    closed spec fn wf(&self) -> bool {
        self.pairs.wf()
    }

    closed spec fn at(&self, k: nat) -> Option<Frac> {
        match self.pairs.at(k) {
            Some((n, s)) => Some(Frac { num: s, den: n }),
            None => None,
        }
    }

    proof fn lemma_fused(&self, k: nat) {
        self.pairs.lemma_fused(k);
    }

    fn next(&mut self) -> (r: Option<Frac>) {
        match self.pairs.next() {
            Some((n, sign)) => Some(Frac { num: sign, den: n }),
            None => None,
        }
    }
}

/// The positive integers `1, 2, 3, ...`.
pub fn naturals() -> (r: Naturals)
    ensures
        r.wf(),
        forall|k: nat| #[trigger] r.at(k) == natural_at(k),
{
    Naturals { next_value: Some(1) }
}

/// The signs `1, -1, 1, -1, ...`.
pub fn alternating() -> (r: Alternating)
    ensures
        r.wf(),
        forall|k: nat| #[trigger] r.at(k) == Some(sign_at(k)),
{
    Alternating { positive: true }
}

/// The factorials `0!, 1!, 2!, ... = 1, 1, 2, 6, 24, ...`, up to the last
/// that fits an `i64`.
pub fn factorial() -> (r: Factorial)
    ensures
        r.wf(),
        forall|k: nat| #[trigger] r.at(k) == factorial_at(k),
{
    Factorial { prod: Some(1), k: 1 }
}

/// The Taylor coefficients of `exp(x)`: `1, 1, 1/2, 1/6, 1/24, ...`.
pub fn t_exp() -> (r: TExp)
    ensures
        r.wf(),
        forall|k: nat| #[trigger] r.at(k) == exp_at(k),
{
    TExp { factorials: factorial() }
}

/// The nonzero Taylor coefficients of `cosh(x)`: `1, 1/2, 1/24, 1/720, ...`.
pub fn nonzero_t_cosh() -> (r: StepBy<TExp>)
    ensures
        r.wf(),
        forall|k: nat| #[trigger] r.at(k) == exp_at(2 * k),
{
    let r = StepBy::new(t_exp(), 2);
    assert forall|k: nat| #[trigger] r.at(k) == exp_at(2 * k) by {
        assert(k * 2 == 2 * k);
    }
    r
}

/// The Taylor coefficients of `cosh(x)`: `1, 0, 1/2, 0, 1/24, 0, ...`.
pub fn t_cosh() -> (r: Intersperse<StepBy<TExp>>)
    ensures
        r.wf(),
        forall|k: nat| #[trigger] r.at(k) == cosh_at(k),
{
    let src = nonzero_t_cosh();
    let r = Intersperse::new(src, Frac { num: 0, den: 1 });
    assert forall|k: nat| #[trigger] r.at(k) == cosh_at(k) by {
        lemma_halves(k);
        assert(src.at(k / 2) == exp_at(2 * (k / 2)));
        assert(src.at(k / 2 + 1) == exp_at(2 * (k / 2 + 1)));
    }
    r
}

/// `k` is twice its half, plus one when it is odd.
proof fn lemma_halves(k: nat)
    ensures
        k % 2 == 0 ==> 2 * (k / 2) == k,
        k % 2 == 1 ==> 2 * (k / 2) + 1 == k && 2 * (k / 2 + 1) == k + 1,
        k % 2 == 0 ==> 2 * (k / 2 + 1) == k + 2 && 2 * (k / 2) + 1 == k + 1,
{
}

/// The nonzero Taylor coefficients of `cos(x)`: `1, -1/2, 1/24, -1/720, ...`.
pub fn nonzero_t_cos() -> (r: SignAlternated<StepBy<TExp>>)
    ensures
        r.wf(),
        forall|k: nat| #[trigger] r.at(k) == with_sign(exp_at(2 * k), sign_at(k)),
{
    let src = nonzero_t_cosh();
    SignAlternated::new(src)
}

/// The Taylor coefficients of `cos(x)`: `1, 0, -1/2, 0, 1/24, 0, ...`.
pub fn t_cos() -> (r: Intersperse<SignAlternated<StepBy<TExp>>>)
    ensures
        r.wf(),
        forall|k: nat| #[trigger] r.at(k) == cos_at(k),
{
    let src = nonzero_t_cos();
    let r = Intersperse::new(src, Frac { num: 0, den: 1 });
    assert forall|k: nat| #[trigger] r.at(k) == cos_at(k) by {
        lemma_halves(k);
        assert(src.at(k / 2) == with_sign(exp_at(2 * (k / 2)), sign_at(k / 2)));
        assert(src.at(k / 2 + 1) == with_sign(exp_at(2 * (k / 2 + 1)), sign_at(k / 2 + 1)));
    }
    r
}

/// The nonzero Taylor coefficients of `sinh(x)`: `1, 1/6, 1/120, ...`.
pub fn nonzero_t_sinh() -> (r: StepBy<Skip<TExp>>)
    ensures
        r.wf(),
        forall|k: nat| #[trigger] r.at(k) == exp_at(2 * k + 1),
{
    let e = t_exp();
    let skipped = Skip::new(e, 1);
    let r = StepBy::new(skipped, 2);
    assert forall|k: nat| #[trigger] r.at(k) == exp_at(2 * k + 1) by {
        assert(k * 2 == 2 * k);
        assert(skipped.at(2 * k) == e.at(2 * k + 1));
    }
    r
}

/// The Taylor coefficients of `sinh(x)`: `0, 1, 0, 1/6, 0, 1/120, ...`.
pub fn t_sinh() -> (r: Prepend<Intersperse<StepBy<Skip<TExp>>>>)
    ensures
        r.wf(),
        forall|k: nat| #[trigger] r.at(k) == sinh_at(k),
{
    let src = nonzero_t_sinh();
    let zero = Frac { num: 0, den: 1 };
    let inner = Intersperse::new(src, zero);
    let r = Prepend::new(zero, inner);
    assert forall|k: nat| #[trigger] r.at(k) == sinh_at(k) by {
        if k > 0 {
            let j = (k - 1) as nat;
            assert(r.at(j + 1) == inner.at(j));
            lemma_halves(j);
            assert(src.at(j / 2) == exp_at(2 * (j / 2) + 1));
            assert(src.at(j / 2 + 1) == exp_at(2 * (j / 2 + 1) + 1));
        }
    }
    r
}

/// The nonzero Taylor coefficients of `sin(x)`: `1, -1/6, 1/120, ...`.
pub fn nonzero_t_sin() -> (r: SignAlternated<StepBy<Skip<TExp>>>)
    ensures
        r.wf(),
        forall|k: nat| #[trigger] r.at(k) == with_sign(exp_at(2 * k + 1), sign_at(k)),
{
    let src = nonzero_t_sinh();
    SignAlternated::new(src)
}

/// The Taylor coefficients of `sin(x)`: `0, 1, 0, -1/6, 0, 1/120, ...`.
pub fn t_sin() -> (r: Prepend<Intersperse<SignAlternated<StepBy<Skip<TExp>>>>>)
    ensures
        r.wf(),
        forall|k: nat| #[trigger] r.at(k) == sin_at(k),
{
    let src = nonzero_t_sin();
    let zero = Frac { num: 0, den: 1 };
    let inner = Intersperse::new(src, zero);
    let r = Prepend::new(zero, inner);
    assert forall|k: nat| #[trigger] r.at(k) == sin_at(k) by {
        if k > 0 {
            let j = (k - 1) as nat;
            assert(r.at(j + 1) == inner.at(j));
            lemma_halves(j);
            assert(src.at(j / 2) == with_sign(exp_at(2 * (j / 2) + 1), sign_at(j / 2)));
            assert(src.at(j / 2 + 1) == with_sign(
                exp_at(2 * (j / 2 + 1) + 1),
                sign_at(j / 2 + 1),
            ));
        }
    }
    r
}

/// The Taylor coefficients of `ln(1 + x)`: `0, 1, -1/2, 1/3, -1/4, ...`.
pub fn t_ln1p() -> (r: Prepend<Ln1pTail>)
    ensures
        r.wf(),
        forall|k: nat| #[trigger] r.at(k) == ln1p_at(k),
{
    let tail = Ln1pTail { pairs: Zip::new(naturals(), alternating()) };
    let r = Prepend::new(Frac { num: 0, den: 1 }, tail);
    assert forall|k: nat| #[trigger] r.at(k) == ln1p_at(k) by {
        if k > 0 {
            let j = (k - 1) as nat;
            assert(r.at(j + 1) == tail.at(j));
        }
    }
    r
}

/// In the Taylor series of `cos(x)`, odd position `2m + 1` holds zero and
/// even position `2m` holds `(-1)^m / (2m)!`, as far as the factorials fit an
/// `i64`.
pub proof fn lemma_cos_terms(m: nat)
    ensures
        fact(2 * m + 2) <= i64::MAX ==> cos_at(2 * m + 1) == Some(zero_frac()),
        fact(2 * m) <= i64::MAX ==> cos_at(2 * m) == Some(
            Frac { num: sign_at(m), den: fact(2 * m) as i64 },
        ),
{
    assert((2 * m + 1) % 2 == 1 && (2 * m + 1 + 1) == 2 * m + 2);
    assert((2 * m) % 2 == 0 && (2 * m) / 2 == m);
}

/// In the Taylor series of `sin(x)`, position `0` and every even position
/// `2m + 2` hold zero and odd position `2m + 1` holds `(-1)^m / (2m + 1)!`, as
/// far as the factorials fit an `i64`.
pub proof fn lemma_sin_terms(m: nat)
    ensures
        sin_at(0) == Some(zero_frac()),
        fact(2 * m + 3) <= i64::MAX ==> sin_at(2 * m + 2) == Some(zero_frac()),
        fact(2 * m + 1) <= i64::MAX ==> sin_at(2 * m + 1) == Some(
            Frac { num: sign_at(m), den: fact(2 * m + 1) as i64 },
        ),
{
    assert((2 * m + 2) % 2 == 0 && (2 * m + 2 + 1) == 2 * m + 3);
    assert((2 * m + 1) % 2 == 1 && (2 * m + 1) / 2 == m);
}

} // verus!
