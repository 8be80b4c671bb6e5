//! Exact rational numbers, the numeric kind of every value the engine handles.
//!
//! A number is kept in lowest terms as `num / den` with `den > 0`, and both
//! parts stay within `NUM_LIMIT`. Any arithmetic whose exact result does not
//! fit is reported as `None`, which callers turn into `null`.
use vstd::arithmetic::div_mod::{lemma_fundamental_div_mod, lemma_mod_multiples_basic};
use vstd::prelude::*;

verus! {

/// Largest magnitude allowed for the numerator and the denominator.
pub const NUM_LIMIT: i128 = 9223372036854775807;

pub open spec fn abs(x: int) -> int {
    if x < 0 {
        -x
    } else {
        x
    }
}

pub open spec fn gcd(a: nat, b: nat) -> nat
    decreases b,
{
    if b == 0 {
        a
    } else {
        gcd(b, a % b)
    }
}

/// `n / d` in lowest terms, when `d > 0` and the reduced parts fit the limit.
pub open spec fn rational(n: int, d: int) -> Option<(int, int)> {
    let g = gcd(abs(n) as nat, d as nat) as int;
    let m = abs(n) / g;
    let p = if n < 0 {
        -m
    } else {
        m
    };
    if d > 0 && m <= NUM_LIMIT && d / g <= NUM_LIMIT {
        Some((p, d / g))
    } else {
        None
    }
}

proof fn lemma_gcd(a: nat, b: nat)
    requires
        b > 0,
    ensures
        0 < gcd(a, b) <= b,
    decreases b,
{
    let r = a % b;
    assert(gcd(a, b) == gcd(b, r));
    if r > 0 {
        lemma_gcd(b, r);
    } else {
        assert(gcd(b, 0) == b);
    }
}

proof fn lemma_gcd_divides(a: nat, b: nat)
    requires
        b > 0,
    ensures
        a % gcd(a, b) == 0,
        b % gcd(a, b) == 0,
    decreases b,
{
    let r = a % b;
    lemma_gcd(a, b);
    assert(gcd(a, b) == gcd(b, r));
    lemma_fundamental_div_mod(a as int, b as int);
    if r == 0 {
        assert(gcd(b, 0) == b);
        lemma_mod_multiples_basic(1, b as int);
    } else {
        lemma_gcd_divides(b, r);
        lemma_gcd(b, r);
        let g = gcd(b, r) as int;
        lemma_fundamental_div_mod(b as int, g);
        lemma_fundamental_div_mod(r as int, g);
        let kb = b as int / g;
        let kr = r as int / g;
        let q = a as int / b as int;
        assert(a == g * (q * kb + kr)) by (nonlinear_arith)
            requires
                a == b * q + r,
                b == g * kb + 0,
                r == g * kr + 0,
        ;
        lemma_mod_multiples_basic(q * kb + kr, g);
        assert((q * kb + kr) * g == g * (q * kb + kr)) by (nonlinear_arith);
    }
}

/// `rational(n, d)`, when defined, is `n / d`: the cross products agree.
pub proof fn lemma_rational_value(n: int, d: int)
    requires
        rational(n, d) is Some,
    ensures
        (rational(n, d)->0).0 * d == n * (rational(n, d)->0).1,
        (rational(n, d)->0).1 > 0,
{
    let a = abs(n) as nat;
    lemma_gcd(a, d as nat);
    lemma_gcd_divides(a, d as nat);
    let g = gcd(a, d as nat) as int;
    lemma_fundamental_div_mod(a as int, g);
    lemma_fundamental_div_mod(d, g);
    let m = a as int / g;
    let q = d / g;
    assert(a == g * m);
    assert(d == g * q);
    assert(m * d == a * q) by (nonlinear_arith)
        requires
            a == g * m,
            d == g * q,
    ;
    assert(q > 0) by (nonlinear_arith)
        requires
            d == g * q,
            d > 0,
            g > 0,
    ;
    assert((rational(n, d)->0).0 == if n < 0 { -m } else { m });
    assert((rational(n, d)->0).1 == q);
    if n < 0 {
        assert((-m) * d == n * q) by (nonlinear_arith)
            requires
                m * d == a * q,
                a == -n,
        ;
    }
}

/// A rational number in lowest terms.
#[derive(Clone, Copy, Debug)]
pub struct Num {
    num: i128,
    den: i128,
}

impl Num {
    #[verifier::type_invariant]
    spec fn inv(self) -> bool {
        &&& 0 < self.den <= NUM_LIMIT
        &&& -NUM_LIMIT <= self.num <= NUM_LIMIT
    }

    pub closed spec fn numer(self) -> int {
        self.num as int
    }

    pub closed spec fn denom(self) -> int {
        self.den as int
    }

    /// The whole number `n`, for `n` within the limit.
    pub closed spec fn spec_int(n: int) -> Num {
        Num { num: n as i128, den: 1 }
    }

    /// The number `n / d` in lowest terms, if `d > 0` and it fits.
    pub closed spec fn from_parts(n: int, d: int) -> Option<Num> {
        match rational(n, d) {
            Some(q) => Some(Num { num: q.0 as i128, den: q.1 as i128 }),
            None => None,
        }
    }

    pub open spec fn value_eq(self, o: Num) -> bool {
        self.numer() * o.denom() == o.numer() * self.denom()
    }

    pub open spec fn value_lt(self, o: Num) -> bool {
        self.numer() * o.denom() < o.numer() * self.denom()
    }

    pub open spec fn spec_sum(self, o: Num) -> Option<Num> {
        Num::from_parts(self.numer() * o.denom() + o.numer() * self.denom(), self.denom() * o.denom())
    }

    pub open spec fn spec_difference(self, o: Num) -> Option<Num> {
        Num::from_parts(self.numer() * o.denom() - o.numer() * self.denom(), self.denom() * o.denom())
    }

    pub open spec fn spec_product(self, o: Num) -> Option<Num> {
        Num::from_parts(self.numer() * o.numer(), self.denom() * o.denom())
    }

    /// `None` for a zero divisor.
    pub open spec fn spec_quotient(self, o: Num) -> Option<Num> {
        if o.numer() == 0 {
            None
        } else if o.numer() > 0 {
            Num::from_parts(self.numer() * o.denom(), self.denom() * o.numer())
        } else {
            Num::from_parts(-(self.numer() * o.denom()), -(self.denom() * o.numer()))
        }
    }

    /// What `from_parts` gives: `n / d` in lowest terms, when it fits.
    pub proof fn lemma_from_parts(n: int, d: int)
        ensures
            Num::from_parts(n, d) is Some <==> rational(n, d) is Some,
            Num::from_parts(n, d) is Some ==> Num::from_parts(n, d)->0.numer() == (rational(
                n,
                d,
            )->0).0 && Num::from_parts(n, d)->0.denom() == (rational(n, d)->0).1,
            Num::from_parts(n, d) is Some ==> Num::from_parts(n, d)->0.numer() * d == n
                * Num::from_parts(n, d)->0.denom(),
    {
        if d > 0 {
            lemma_gcd(abs(n) as nat, d as nat);
        }
        if rational(n, d) is Some {
            lemma_rational_value(n, d);
        }
    }

    /// `spec_int(n)` is the whole number `n`.
    pub proof fn lemma_spec_int(n: int)
        requires
            -NUM_LIMIT <= n <= NUM_LIMIT,
        ensures
            Num::spec_int(n).numer() == n,
            Num::spec_int(n).denom() == 1,
    {
    }

    /// Builds `n / d` in lowest terms.
    pub fn make(n: i128, d: i128) -> (r: Option<Num>)
        requires
            d > 0,
            n > i128::MIN,
        ensures
            r == Num::from_parts(n as int, d as int),
    {
        let a: i128 = if n < 0 {
            -n
        } else {
            n
        };
        let g: i128 = gcd_exec(a, d);
        proof {
            lemma_gcd(a as nat, d as nat);
        }
        let m: i128 = a / g;
        let q: i128 = d / g;
        if m <= NUM_LIMIT && q <= NUM_LIMIT {
            let p: i128 = if n < 0 {
                -m
            } else {
                m
            };
            proof {
                assert(q > 0) by (nonlinear_arith)
                    requires
                        q == d / g,
                        0 < g <= d,
                ;
            }
            Some(Num { num: p, den: q })
        } else {
            None
        }
    }

    /// The whole number `n`.
    pub fn from_int(n: i64) -> (r: Num)
        requires
            n > i64::MIN,
        ensures
            r == Num::spec_int(n as int),
            r.numer() == n as int,
            r.denom() == 1,
    {
        Num { num: n as i128, den: 1 }
    }

    /// The number `n / d` in lowest terms; `None` when `d` is not positive.
    pub fn ratio(n: i64, d: i64) -> (r: Option<Num>)
        ensures
            d <= 0 ==> r is None,
            d > 0 ==> r == Num::from_parts(n as int, d as int),
    {
        if d <= 0 {
            None
        } else {
            Num::make(n as i128, d as i128)
        }
    }

    pub fn numerator(&self) -> (r: i64)
        ensures
            r as int == self.numer(),
    {
        proof {
            use_type_invariant(self);
        }
        self.num as i64
    }

    pub fn denominator(&self) -> (r: i64)
        ensures
            r as int == self.denom(),
    {
        proof {
            use_type_invariant(self);
        }
        self.den as i64
    }

    /// The number with the opposite sign.
    pub fn negated(&self) -> (r: Num)
        ensures
            r.numer() == -self.numer(),
            r.denom() == self.denom(),
    {
        proof {
            use_type_invariant(self);
        }
        Num { num: -self.num, den: self.den }
    }

    pub fn same(&self, o: &Num) -> (r: bool)
        ensures
            r == self.value_eq(*o),
    {
        proof {
            use_type_invariant(self);
            use_type_invariant(o);
            lemma_cross_bound(self.num as int, o.den as int);
            lemma_cross_bound(o.num as int, self.den as int);
        }
        self.num * o.den == o.num * self.den
    }

    pub fn less(&self, o: &Num) -> (r: bool)
        ensures
            r == self.value_lt(*o),
    {
        proof {
            use_type_invariant(self);
            use_type_invariant(o);
            lemma_cross_bound(self.num as int, o.den as int);
            lemma_cross_bound(o.num as int, self.den as int);
        }
        self.num * o.den < o.num * self.den
    }

    pub fn sum(&self, o: &Num) -> (r: Option<Num>)
        ensures
            r == self.spec_sum(*o),
    {
        proof {
            use_type_invariant(self);
            use_type_invariant(o);
            lemma_cross_bound(self.num as int, o.den as int);
            lemma_cross_bound(o.num as int, self.den as int);
            lemma_cross_bound(self.den as int, o.den as int);
            lemma_pos_mul(self.den as int, o.den as int);
        }
        Num::make(self.num * o.den + o.num * self.den, self.den * o.den)
    }

    pub fn difference(&self, o: &Num) -> (r: Option<Num>)
        ensures
            r == self.spec_difference(*o),
    {
        proof {
            use_type_invariant(self);
            use_type_invariant(o);
            lemma_cross_bound(self.num as int, o.den as int);
            lemma_cross_bound(o.num as int, self.den as int);
            lemma_cross_bound(self.den as int, o.den as int);
            lemma_pos_mul(self.den as int, o.den as int);
        }
        Num::make(self.num * o.den - o.num * self.den, self.den * o.den)
    }

    pub fn product(&self, o: &Num) -> (r: Option<Num>)
        ensures
            r == self.spec_product(*o),
    {
        proof {
            use_type_invariant(self);
            use_type_invariant(o);
            lemma_cross_bound(self.num as int, o.num as int);
            lemma_cross_bound(self.den as int, o.den as int);
            lemma_pos_mul(self.den as int, o.den as int);
        }
        Num::make(self.num * o.num, self.den * o.den)
    }

    pub fn quotient(&self, o: &Num) -> (r: Option<Num>)
        ensures
            r == self.spec_quotient(*o),
    {
        proof {
            use_type_invariant(self);
            use_type_invariant(o);
            lemma_cross_bound(self.num as int, o.den as int);
            lemma_cross_bound(self.den as int, o.num as int);
            if o.num > 0 {
                lemma_pos_mul(self.den as int, o.num as int);
            } else if o.num < 0 {
                lemma_pos_mul(self.den as int, -o.num);
                assert(self.den * o.num == -(self.den * (-o.num))) by (nonlinear_arith);
            }
        }
        if o.num == 0 {
            None
        } else if o.num > 0 {
            Num::make(self.num * o.den, self.den * o.num)
        } else {
            Num::make(-(self.num * o.den), -(self.den * o.num))
        }
    }
}

proof fn lemma_pos_mul(x: int, y: int)
    requires
        x > 0,
        y > 0,
    ensures
        x * y > 0,
{
    assert(x * y > 0) by (nonlinear_arith)
        requires
            x > 0,
            y > 0,
    ;
}

proof fn lemma_cross_bound(x: int, y: int)
    requires
        -NUM_LIMIT <= x <= NUM_LIMIT,
        -NUM_LIMIT <= y <= NUM_LIMIT,
    ensures
        -NUM_LIMIT * NUM_LIMIT <= x * y <= NUM_LIMIT * NUM_LIMIT,
{
    assert(-NUM_LIMIT * NUM_LIMIT <= x * y <= NUM_LIMIT * NUM_LIMIT) by (nonlinear_arith)
        requires
            -NUM_LIMIT <= x <= NUM_LIMIT,
            -NUM_LIMIT <= y <= NUM_LIMIT,
    ;
}

fn gcd_exec(a: i128, b: i128) -> (g: i128)
    requires
        a >= 0,
        b > 0,
    ensures
        g as int == gcd(a as nat, b as nat),
{
    let mut x: i128 = a;
    let mut y: i128 = b;
    while y != 0
        invariant
            x >= 0,
            y >= 0,
            gcd(x as nat, y as nat) == gcd(a as nat, b as nat),
        decreases y,
    {
        let r: i128 = x % y;
        x = y;
        y = r;
    }
    x
}

impl PartialEq for Num {
    fn eq(&self, o: &Num) -> (r: bool) {
        self.same(o)
    }
}

impl vstd::std_specs::cmp::PartialEqSpecImpl for Num {
    open spec fn obeys_eq_spec() -> bool {
        true
    }

    open spec fn eq_spec(&self, o: &Num) -> bool {
        self.value_eq(*o)
    }
}

} // verus!
