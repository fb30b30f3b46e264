//! A dimensional quantity: a numeric factor paired with base dimensions.
use vstd::prelude::*;

use crate::dims::{
    chars_lt, divisible_by, exponent_of, fits_i32, inverse_dims, is_sorted_listing,
    lemma_chars_lt_irreflexive, lemma_chars_lt_transitive, power_dims, product_dims,
    quotient_dims, root_dims, units_text, Dimensions,
};
use crate::error::{ErrorCode, UnitsError};
use crate::magnitude::{known_negative, mag_view, Magnitude};

verus! {

/// A dimensional quantity: a numeric factor (kept as a [`Magnitude`] term)
/// paired with zero or more base dimensions.
#[derive(Debug, Clone)]
pub struct Unit {
    dims: Dimensions,
    magnitude: Magnitude,
}

/// Every exponent of a dimension map is non-zero.
pub open spec fn nonzero_exponents(a: Map<Seq<char>, int>) -> bool {
    forall|k: Seq<char>| #[trigger] a.contains_key(k) ==> a[k] != 0
}

/// Multiplying the exponent maps by `b` and then dividing by `b` gives the
/// starting dimensions back.
pub proof fn lemma_multiply_then_divide(a: Map<Seq<char>, int>, b: Map<Seq<char>, int>)
    requires
        nonzero_exponents(a),
    ensures
        quotient_dims(product_dims(a, b), b) == a,
{
    let p = product_dims(a, b);
    assert forall|k: Seq<char>| exponent_of(p, k) == exponent_of(a, k) + exponent_of(b, k) by {}
    assert(quotient_dims(p, b) =~= a);
}

/// Dividing by `b` and then multiplying by `b` gives the starting
/// dimensions back.
pub proof fn lemma_divide_then_multiply(a: Map<Seq<char>, int>, b: Map<Seq<char>, int>)
    requires
        nonzero_exponents(a),
    ensures
        product_dims(quotient_dims(a, b), b) == a,
{
    let q = quotient_dims(a, b);
    assert forall|k: Seq<char>| exponent_of(q, k) == exponent_of(a, k) - exponent_of(b, k) by {}
    assert(product_dims(q, b) =~= a);
}

/// A quantity divided by itself is dimensionless: every unit converts to
/// itself by a plain number.
pub proof fn lemma_quotient_self(a: Map<Seq<char>, int>)
    ensures
        quotient_dims(a, a) == Map::<Seq<char>, int>::empty(),
{
    assert(quotient_dims(a, a) =~= Map::<Seq<char>, int>::empty());
}

/// Multiplication of dimensions is commutative.
pub proof fn lemma_multiply_commutes(a: Map<Seq<char>, int>, b: Map<Seq<char>, int>)
    ensures
        product_dims(a, b) == product_dims(b, a),
{
    assert(product_dims(a, b) =~= product_dims(b, a));
}

/// Inverting twice gives the starting dimensions back (no exponent is
/// `i32::MIN`, the one value that negation leaves unchanged).
pub proof fn lemma_invert_twice(a: Map<Seq<char>, int>)
    requires
        forall|k: Seq<char>| #[trigger] a.contains_key(k) ==> fits_i32(a[k]) && a[k] != i32::MIN as int,
    ensures
        inverse_dims(inverse_dims(a)) == a,
{
    assert(inverse_dims(inverse_dims(a)) =~= a);
}

/// Raising to a power `n > 0` and taking the `n`-th root gives the starting
/// dimensions back; every exponent of the power is a multiple of `n`.
pub proof fn lemma_power_then_root(a: Map<Seq<char>, int>, n: int)
    requires
        n > 0,
        nonzero_exponents(a),
    ensures
        divisible_by(power_dims(a, n), n),
        root_dims(power_dims(a, n), n) == a,
{
    let p = power_dims(a, n);
    assert forall|k: Seq<char>| #[trigger] a.contains_key(k) implies p.contains_key(k) && p[k] == a[k] * n && (a[k] * n) % n == 0 && (a[k] * n) / n == a[k] by {
        assert(a[k] * n != 0) by (nonlinear_arith)
            requires
                a[k] != 0,
                n > 0,
        ;
        vstd::arithmetic::div_mod::lemma_mod_multiples_basic(a[k], n);
        vstd::arithmetic::div_mod::lemma_div_multiples_vanish(a[k], n);
        assert(n * a[k] == a[k] * n) by (nonlinear_arith);
    }
    assert forall|k: Seq<char>| #[trigger] p.contains_key(k) implies p[k] % n == 0 by {}
    assert(root_dims(p, n) =~= a);
}

/// Two sorted listings of the same dimension map are the same listing, so
/// the base-units text of a quantity is determined by its dimensions.
pub proof fn lemma_sorted_listing_unique(
    p: Seq<(Seq<char>, int)>,
    q: Seq<(Seq<char>, int)>,
    m: Map<Seq<char>, int>,
)
    requires
        is_sorted_listing(p, m),
        is_sorted_listing(q, m),
    ensures
        p == q,
    decreases p.len() + q.len(),
{
    if p.len() == 0 || q.len() == 0 {
        if p.len() > 0 {
            assert(m.contains_key(p[0].0));
        }
        if q.len() > 0 {
            assert(m.contains_key(q[0].0));
        }
        assert(p =~= q);
    } else {
        // the first entries are both the least key of m
        let a = p[0].0;
        let b = q[0].0;
        assert(m.contains_key(a));
        assert(m.contains_key(b));
        let ia = choose|i: int| 0 <= i < q.len() && q[i].0 == a;
        let ib = choose|i: int| 0 <= i < p.len() && p[i].0 == b;
        if ia > 0 {
            assert(chars_lt(q[0].0, q[ia].0));
        }
        if ib > 0 {
            assert(chars_lt(p[0].0, p[ib].0));
        }
        if ia > 0 && ib > 0 {
            lemma_chars_lt_transitive(a, b, a);
            lemma_chars_lt_irreflexive(a);
        }
        assert(a == b);
        let m2 = m.remove(a);
        let p2 = p.drop_first();
        let q2 = q.drop_first();
        assert forall|i: int| 0 <= i < p2.len() implies #[trigger] m2.contains_key(p2[i].0) && m2[p2[i].0] == p2[i].1 by {
            assert(chars_lt(p[0].0, p[i + 1].0));
            lemma_chars_lt_irreflexive(a);
        }
        assert forall|i: int| 0 <= i < q2.len() implies #[trigger] m2.contains_key(q2[i].0) && m2[q2[i].0] == q2[i].1 by {
            assert(chars_lt(q[0].0, q[i + 1].0));
            lemma_chars_lt_irreflexive(a);
            assert(q[i + 1].0 != a);
            assert(m.contains_key(q[i + 1].0) && m[q[i + 1].0] == q[i + 1].1);
        }
        assert forall|k: Seq<char>| #[trigger] m2.contains_key(k) implies exists|i: int| 0 <= i < p2.len() && p2[i].0 == k by {
            let i = choose|i: int| 0 <= i < p.len() && p[i].0 == k;
            assert(i != 0);
            assert(p2[i - 1].0 == k);
        }
        assert forall|k: Seq<char>| #[trigger] m2.contains_key(k) implies exists|i: int| 0 <= i < q2.len() && q2[i].0 == k by {
            let i = choose|i: int| 0 <= i < q.len() && q[i].0 == k;
            assert(i != 0);
            assert(q2[i - 1].0 == k);
        }
        assert forall|i: int, j: int| 0 <= i < j < p2.len() implies chars_lt(#[trigger] p2[i].0, #[trigger] p2[j].0) by {
            assert(chars_lt(p[i + 1].0, p[j + 1].0));
        }
        assert forall|i: int, j: int| 0 <= i < j < q2.len() implies chars_lt(#[trigger] q2[i].0, #[trigger] q2[j].0) by {
            assert(chars_lt(q[i + 1].0, q[j + 1].0));
        }
        lemma_sorted_listing_unique(p2, q2, m2);
        assert(p[0].1 == m[a]);
        assert(q[0].1 == m[a]);
        assert(p =~= seq![p[0]] + p2);
        assert(q =~= seq![q[0]] + q2);
    }
}

fn take_magnitude(m: &mut Magnitude) -> (r: Magnitude)
    ensures
        r == *old(m),
        *final(m) == Magnitude::One,
{
    let mut t = Magnitude::One;
    std::mem::swap(m, &mut t);
    t
}

impl Unit {
    /// The dimensions are well formed.
    pub closed spec fn wf(&self) -> bool {
        self.dims.wf()
    }

    /// The base dimensions: primitive unit name to non-zero exponent.
    pub closed spec fn dimensions(&self) -> Map<Seq<char>, int> {
        self.dims@
    }

    /// The numeric factor as a term.
    pub closed spec fn factor_term(&self) -> Magnitude {
        self.magnitude
    }

    /// The dimensions of a well-formed unit are non-zero `i32` exponents, so
    /// the laws on dimension maps above apply to them.
    pub proof fn lemma_dimensions(&self)
        requires
            self.wf(),
        ensures
            nonzero_exponents(self.dimensions()),
            forall|k: Seq<char>| #[trigger] self.dimensions().contains_key(k) ==> fits_i32(self.dimensions()[k]),
    {
        self.dims.lemma_exponents();
    }

    /// A unit from its parts.
    pub fn from_parts(dims: Dimensions, magnitude: Magnitude) -> (u: Unit)
        requires
            dims.wf(),
        ensures
            u.wf(),
            u.dimensions() == dims@,
            u.factor_term() == magnitude,
    {
        Unit { dims, magnitude }
    }

    /// The parts of a unit.
    pub fn into_parts(self) -> (r: (Dimensions, Magnitude))
        requires
            self.wf(),
        ensures
            r.0.wf(),
            r.0@ == self.dimensions(),
            r.1 == self.factor_term(),
    {
        (self.dims, self.magnitude)
    }

    /// The numeric factor as a term.
    pub fn magnitude(&self) -> (m: &Magnitude)
        ensures
            *m == self.factor_term(),
    {
        &self.magnitude
    }

    /// The base dimensions.
    pub fn dims(&self) -> (d: &Dimensions)
        requires
            self.wf(),
        ensures
            d.wf(),
            d@ == self.dimensions(),
    {
        &self.dims
    }

    /// Creates a freshly initialised unit with factor one and no dimensions.
    pub fn new() -> (u: Unit)
        ensures
            u.wf(),
            u.dimensions() == Map::<Seq<char>, int>::empty(),
            u.factor_term() == Magnitude::One,
    {
        Unit { dims: Dimensions::empty(), magnitude: Magnitude::One }
    }

    /// A copy of the unit.
    pub fn duplicate(&self) -> (u: Unit)
        requires
            self.wf(),
        ensures
            u.wf(),
            u.dimensions() == self.dimensions(),
            u.factor_term() == self.factor_term(),
    {
        Unit { dims: self.dims.duplicate(), magnitude: self.magnitude.duplicate() }
    }

    /// Returns the base dimensions as a human-readable string: the names
    /// with positive exponents (each repeated by its exponent) in name
    /// order, then ` / ` and the names with negative exponents, as in
    /// `kg m / s s`; empty for a dimensionless unit.
    pub fn base_units(&self) -> (s: String)
        requires
            self.wf(),
        ensures
            exists|p: Seq<(Seq<char>, int)>|
                is_sorted_listing(p, self.dimensions()) && s@ == units_text(p),
    {
        self.dims.base_units_string()
    }

    /// Whether multiplying by `rhs` keeps every exponent within `i32`.
    pub fn can_multiply(&self, rhs: &Unit) -> (b: bool)
        requires
            self.wf(),
            rhs.wf(),
        ensures
            b == forall|k: Seq<char>| fits_i32(#[trigger] exponent_of(self.dimensions(), k) + exponent_of(rhs.dimensions(), k)),
    {
        let b = self.dims.fits_combined(&rhs.dims, false);
        proof {
            let x = self.dims@;
            let y = rhs.dims@;
            assert(self.dimensions() == x);
            assert(rhs.dimensions() == y);
            if b {
                assert forall|k: Seq<char>| fits_i32(#[trigger] exponent_of(x, k) + exponent_of(y, k)) by {
                    assert(fits_i32(exponent_of(x, k) + crate::dims::signed(false, exponent_of(y, k))));
                }
            } else {
                let k = choose|k: Seq<char>| !fits_i32(#[trigger] exponent_of(x, k) + crate::dims::signed(false, exponent_of(y, k)));
                assert(!fits_i32(exponent_of(x, k) + exponent_of(y, k)));
            }
        }
        b
    }

    /// Whether dividing by `rhs` keeps every exponent within `i32`.
    pub fn can_divide(&self, rhs: &Unit) -> (b: bool)
        requires
            self.wf(),
            rhs.wf(),
        ensures
            b == forall|k: Seq<char>| fits_i32(#[trigger] exponent_of(self.dimensions(), k) - exponent_of(rhs.dimensions(), k)),
    {
        let b = self.dims.fits_combined(&rhs.dims, true);
        proof {
            let x = self.dims@;
            let y = rhs.dims@;
            assert(self.dimensions() == x);
            assert(rhs.dimensions() == y);
            if b {
                assert forall|k: Seq<char>| fits_i32(#[trigger] exponent_of(x, k) - exponent_of(y, k)) by {
                    assert(fits_i32(exponent_of(x, k) + crate::dims::signed(true, exponent_of(y, k))));
                }
            } else {
                let k = choose|k: Seq<char>| !fits_i32(#[trigger] exponent_of(x, k) + crate::dims::signed(true, exponent_of(y, k)));
                assert(!fits_i32(exponent_of(x, k) - exponent_of(y, k)));
            }
        }
        b
    }

    /// Multiplies `self` by `rhs` in place.
    pub fn multiply(&mut self, rhs: Unit) -> (r: Result<(), UnitsError>)
        requires
            old(self).wf(),
            rhs.wf(),
            forall|k: Seq<char>| fits_i32(#[trigger] exponent_of(old(self).dimensions(), k) + exponent_of(rhs.dimensions(), k)),
        ensures
            r is Ok,
            final(self).wf(),
            final(self).dimensions() == product_dims(old(self).dimensions(), rhs.dimensions()),
            final(self).factor_term() == Magnitude::Product(
                Box::new(old(self).factor_term()),
                Box::new(rhs.factor_term()),
            ),
    {
        proof {
            assert(self.dimensions() == self.dims@);
            assert(rhs.dimensions() == rhs.dims@);
        }
        self.dims.multiply(&rhs.dims);
        let m = take_magnitude(&mut self.magnitude);
        self.magnitude = Magnitude::Product(Box::new(m), Box::new(rhs.magnitude));
        Ok(())
    }

    /// Divides `self` by `rhs` in place.
    pub fn divide(&mut self, rhs: Unit) -> (r: Result<(), UnitsError>)
        requires
            old(self).wf(),
            rhs.wf(),
            forall|k: Seq<char>| fits_i32(#[trigger] exponent_of(old(self).dimensions(), k) - exponent_of(rhs.dimensions(), k)),
        ensures
            r is Ok,
            final(self).wf(),
            final(self).dimensions() == quotient_dims(old(self).dimensions(), rhs.dimensions()),
            final(self).factor_term() == Magnitude::Quotient(
                Box::new(old(self).factor_term()),
                Box::new(rhs.factor_term()),
            ),
    {
        proof {
            assert(self.dimensions() == self.dims@);
            assert(rhs.dimensions() == rhs.dims@);
        }
        self.dims.divide(&rhs.dims);
        let m = take_magnitude(&mut self.magnitude);
        self.magnitude = Magnitude::Quotient(Box::new(m), Box::new(rhs.magnitude));
        Ok(())
    }

    /// Adds `rhs` to `self` in place; fails with `BadSum` exactly when the
    /// dimensions differ, leaving `self` unchanged.
    pub fn add(&mut self, rhs: Unit) -> (r: Result<(), UnitsError>)
        requires
            old(self).wf(),
            rhs.wf(),
        ensures
            final(self).wf(),
            final(self).dimensions() == old(self).dimensions(),
            r is Ok <==> old(self).dimensions() == rhs.dimensions(),
            r is Err ==> r == Err::<(), UnitsError>(UnitsError(ErrorCode::BadSum)) && final(self).factor_term() == old(self).factor_term(),
            r is Ok ==> final(self).factor_term() == Magnitude::Sum(
                Box::new(old(self).factor_term()),
                Box::new(rhs.factor_term()),
            ),
    {
        if !self.dims.same_as(&rhs.dims) {
            return Err(UnitsError(ErrorCode::BadSum));
        }
        let m = take_magnitude(&mut self.magnitude);
        self.magnitude = Magnitude::Sum(Box::new(m), Box::new(rhs.magnitude));
        Ok(())
    }

    /// Inverts `self` in place (reciprocal).
    pub fn invert(&mut self)
        requires
            old(self).wf(),
        ensures
            final(self).wf(),
            final(self).dimensions() == inverse_dims(old(self).dimensions()),
            final(self).factor_term() == Magnitude::Reciprocal(Box::new(old(self).factor_term())),
    {
        self.dims.invert();
        let m = take_magnitude(&mut self.magnitude);
        self.magnitude = Magnitude::Reciprocal(Box::new(m));
    }

    /// Whether raising to `power` keeps every exponent within `i32`.
    pub fn can_pow(&self, power: i32) -> (b: bool)
        requires
            self.wf(),
        ensures
            b == forall|k: Seq<char>| #[trigger] self.dimensions().contains_key(k) ==> fits_i32(self.dimensions()[k] * power),
    {
        proof { assert(self.dimensions() == self.dims@); }
        self.dims.fits_power(power)
    }

    /// Raises `self` to a non-negative integer `power` in place; a negative
    /// power fails with `BadNum` and leaves `self` unchanged.
    pub fn pow(&mut self, power: i32) -> (r: Result<(), UnitsError>)
        requires
            old(self).wf(),
            forall|k: Seq<char>| #[trigger] old(self).dimensions().contains_key(k) ==> fits_i32(old(self).dimensions()[k] * power),
        ensures
            final(self).wf(),
            r is Err <==> power < 0,
            r is Err ==> r == Err::<(), UnitsError>(UnitsError(ErrorCode::BadNum)) && final(self).dimensions() == old(self).dimensions() && final(self).factor_term() == old(self).factor_term(),
            r is Ok ==> final(self).dimensions() == power_dims(old(self).dimensions(), power as int)
                && final(self).factor_term() == Magnitude::IntPower(Box::new(old(self).factor_term()), power),
    {
        if power < 0 {
            return Err(UnitsError(ErrorCode::BadNum));
        }
        proof {
            assert(self.dimensions() == self.dims@);
        }
        self.dims.power(power);
        let m = take_magnitude(&mut self.magnitude);
        self.magnitude = Magnitude::IntPower(Box::new(m), power);
        Ok(())
    }

    /// Takes the `n`-th root of `self` in place.  Fails with `NotRoot`, leaving
    /// `self` unchanged, when `n <= 0`, when the factor is negative by exact
    /// arithmetic ([`known_negative`]), or when some exponent is not a
    /// multiple of `n`.  Where only the floating-point value of the factor
    /// tells its sign (a transcendental function or a table lookup), the
    /// root term carries the check and evaluating it fails with `NotRoot`;
    /// [`Unit::root_with_sign`] takes that sign from the caller instead.
    pub fn root(&mut self, n: i32) -> (r: Result<(), UnitsError>)
        requires
            old(self).wf(),
        ensures
            final(self).wf(),
            r is Err <==> (n <= 0 || known_negative(mag_view(old(self).factor_term())) || !divisible_by(old(self).dimensions(), n as int)),
            r is Err ==> r == Err::<(), UnitsError>(UnitsError(ErrorCode::NotRoot)) && final(self).dimensions() == old(self).dimensions() && final(self).factor_term() == old(self).factor_term(),
            r is Ok ==> final(self).dimensions() == root_dims(old(self).dimensions(), n as int)
                && final(self).factor_term() == Magnitude::Root(Box::new(old(self).factor_term()), n),
    {
        if n <= 0 {
            return Err(UnitsError(ErrorCode::NotRoot));
        }
        if self.magnitude.is_known_negative() {
            return Err(UnitsError(ErrorCode::NotRoot));
        }
        if !self.dims.divisible(n) {
            return Err(UnitsError(ErrorCode::NotRoot));
        }
        self.dims.root(n);
        let m = take_magnitude(&mut self.magnitude);
        self.magnitude = Magnitude::Root(Box::new(m), n);
        Ok(())
    }

    /// Takes the `n`-th root of `self` in place, as [`Unit::root`], where
    /// `negative` says whether the floating-point value of the factor is
    /// below zero.  Fails with `NotRoot`, leaving `self` unchanged, when
    /// `n <= 0`, when the factor is negative (by exact arithmetic, or by
    /// `negative`), or when some exponent is not a multiple of `n`.
    pub fn root_with_sign(&mut self, n: i32, negative: bool) -> (r: Result<(), UnitsError>)
        requires
            old(self).wf(),
        ensures
            final(self).wf(),
            r is Err <==> (n <= 0 || negative || known_negative(mag_view(old(self).factor_term())) || !divisible_by(
                old(self).dimensions(),
                n as int,
            )),
            r is Err ==> r == Err::<(), UnitsError>(UnitsError(ErrorCode::NotRoot)) && final(self).dimensions() == old(self).dimensions() && final(self).factor_term() == old(self).factor_term(),
            r is Ok ==> final(self).dimensions() == root_dims(old(self).dimensions(), n as int)
                && final(self).factor_term() == Magnitude::Root(Box::new(old(self).factor_term()), n),
    {
        if negative {
            return Err(UnitsError(ErrorCode::NotRoot));
        }
        self.root(n)
    }

    /// Returns `true` when `self` and `other` have the same base dimensions.
    pub fn is_conformable(&self, other: &Unit) -> (b: bool)
        requires
            self.wf(),
            other.wf(),
        ensures
            b == (self.dimensions() == other.dimensions()),
    {
        self.dims.same_as(&other.dims)
    }

    /// Whether the unit has no dimensions.
    pub fn is_dimensionless(&self) -> (b: bool)
        requires
            self.wf(),
        ensures
            b == (self.dimensions() == Map::<Seq<char>, int>::empty()),
    {
        self.dims.is_dimensionless()
    }
}

impl Default for Unit {
    /// The unit with factor one and no dimensions (as [`Unit::new`]).
    fn default() -> (u: Unit)
        ensures
            u.wf(),
            u.dimensions() == Map::<Seq<char>, int>::empty(),
            u.factor_term() == Magnitude::One,
    {
        Unit::new()
    }
}

} // verus!
