//! Polynomial automorphisms of tropical affine space: one fraction per
//! coordinate, substituted for the variables.
use crate::error::AlgebraError;
use crate::poly_model::{
    apply_fits, fits_i64, has_dim, lemma_apply_add, lemma_apply_variables, lemma_mul_single_left,
    lemma_mul_singles, lemma_one_times_one, lemma_shift_empty, lemma_shift_single, monomial_map,
    nonneg_exponents, one, poly_add, poly_apply, seq_add, shift, single, unit, variables, zeros,
    TermMap,
};
use crate::text::{join, lemma_join_push};
use crate::tropical_int::{tpow, TropicalInt};
use crate::tropical_polynomial::{key, Degree, TropicalPolynomial};
use crate::tropical_rational::{is_rational_text, numerators, TropicalRational};
use vstd::prelude::*;

verus! {

/// The numerators of a list of coordinate maps.
pub open spec fn nums_of(s: Seq<(TermMap, TermMap)>) -> Seq<TermMap> {
    Seq::new(s.len(), |i: int| s[i].0)
}

/// Each variable mapped to itself.
pub open spec fn identity_map(n: nat) -> Seq<(TermMap, TermMap)> {
    Seq::new(n, |i: int| (single(unit(n, i), 0), one(n)))
}

/// `b` applied to each numerator of `a`, the denominators of `a` kept.
pub open spec fn compose_map(a: Seq<(TermMap, TermMap)>, b: Seq<(TermMap, TermMap)>, n: nat) -> Seq<(TermMap, TermMap)> {
    Seq::new(a.len(), |i: int| (poly_apply(nums_of(b), n, a[i].0), a[i].1))
}

/// No exponent overflows while `b` is applied to the numerators of `a`.
pub open spec fn compose_fits(a: Seq<(TermMap, TermMap)>, b: Seq<(TermMap, TermMap)>, n: nat) -> bool {
    forall|i: int| 0 <= i < a.len() ==> #[trigger] apply_fits(nums_of(b), n, a[i].0)
}

/// Every term of `row` is free of the variables up to `pivot`.
pub open spec fn row_after(row: TermMap, pivot: int) -> bool {
    forall|e: Seq<int>, j: int| row.contains_key(e) && 0 <= j <= pivot ==> #[trigger] e[j] == 0
}

/// The determinant of a 2 by 2 degree matrix.
pub open spec fn det2(m: [[Degree; 2]; 2]) -> int {
    m[0][0] * m[1][1] - m[0][1] * m[1][0]
}

/// `t` writes the coordinate maps of `a` as `(r0, r1, ...)`.
pub open spec fn is_automorphism_text(a: Seq<(TermMap, TermMap)>, n: nat, t: Seq<char>) -> bool {
    exists|texts: Seq<Seq<char>>|
        {
            &&& texts.len() == a.len()
            &&& forall|i: int| 0 <= i < a.len() ==> is_rational_text(a[i], n, #[trigger] texts[i])
            &&& t == "("@ + join(texts, ", "@) + ")"@
        }
}

/// No entry is `i64::MIN`, so that every entry can be negated.
pub open spec fn negatable(m: [[Degree; 2]; 2]) -> bool {
    forall|i: int, j: int| 0 <= i < 2 && 0 <= j < 2 ==> #[trigger] m@[i]@[j] > i64::MIN
}

/// The inverse of the monomial automorphism of `m`, of determinant 1 or -1,
/// with coefficients `c0` and `c1`: the adjugate times the determinant, each
/// coefficient raised to the power -1.
pub open spec fn inverse_monomial_map(m: [[Degree; 2]; 2], c0: Option<int>, c1: Option<int>) -> Seq<(TermMap, TermMap)> {
    let d = det2(m);
    seq![
        (monomial_map(seq![d * m[1][1], -d * m[0][1]], tpow(c0, -1)), one(2)),
        (monomial_map(seq![-d * m[1][0], d * m[0][0]], tpow(c1, -1)), one(2)),
    ]
}

/// An N-tuple of fractions; coordinate `i` is substituted for variable `i`.
#[derive(Debug)]
pub struct TropicalAutomorphism<const N: usize> {
    mappings: Vec<TropicalRational<N>>,
}

impl<const N: usize> View for TropicalAutomorphism<N> {
    type V = Seq<(TermMap, TermMap)>;

    closed spec fn view(&self) -> Seq<(TermMap, TermMap)> {
        Seq::new(N as nat, |i: int| self.mappings@[i]@)
    }
}

impl<const N: usize> TropicalAutomorphism<N> {
    #[verifier::type_invariant]
    closed spec fn wf(self) -> bool {
        self.mappings@.len() == N
    }

    pub fn new(mappings: [TropicalRational<N>; N]) -> (r: Self)
        ensures
            r@ == Seq::new(N as nat, |i: int| mappings@[i]@),
    {
        let mut v: Vec<TropicalRational<N>> = Vec::new();
        let mut i: usize = 0;
        while i < N
            invariant
                i <= N,
                v@.len() == i,
                forall|j: int| 0 <= j < i ==> (#[trigger] v@[j])@ == mappings@[j]@,
            decreases N - i,
        {
            v.push(mappings[i].clone());
            i += 1;
        }
        let r = TropicalAutomorphism { mappings: v };
        proof {
            assert(r@ =~= Seq::new(N as nat, |i: int| mappings@[i]@));
        }
        r
    }

    /// The coordinate map of index `index`.
    pub fn mapping(&self, index: usize) -> (r: &TropicalRational<N>)
        requires
            index < N,
        ensures
            r@ == self@[index as int],
    {
        proof {
            use_type_invariant(self);
        }
        &self.mappings[index]
    }

    /// Each variable mapped to itself.
    pub fn identity() -> (r: Self)
        ensures
            r@ == identity_map(N as nat),
    {
        let mut v: Vec<TropicalRational<N>> = Vec::new();
        let mut i: usize = 0;
        while i < N
            invariant
                i <= N,
                v@.len() == i,
                forall|j: int| 0 <= j < i ==> (#[trigger] v@[j])@ == identity_map(N as nat)[j],
            decreases N - i,
        {
            v.push(TropicalRational::polynomial(TropicalPolynomial::variable(i)));
            i += 1;
        }
        let r = TropicalAutomorphism { mappings: v };
        proof {
            assert(r@ =~= identity_map(N as nat));
        }
        r
    }

    /// The uniform dilation: each variable multiplied by `factor`.
    pub fn scalar(factor: TropicalInt) -> (r: Self)
        ensures
            r@ == Seq::new(
                N as nat,
                |i: int| (monomial_map(unit(N as nat, i), factor@), one(N as nat)),
            ),
    {
        let ghost expected = Seq::new(
            N as nat,
            |i: int| (monomial_map(unit(N as nat, i), factor@), one(N as nat)),
        );
        let mut v: Vec<TropicalRational<N>> = Vec::new();
        let mut i: usize = 0;
        while i < N
            invariant
                i <= N,
                v@.len() == i,
                expected == Seq::new(
                    N as nat,
                    |i: int| (monomial_map(unit(N as nat, i), factor@), one(N as nat)),
                ),
                forall|j: int| 0 <= j < i ==> (#[trigger] v@[j])@ == expected[j],
            decreases N - i,
        {
            let x = TropicalPolynomial::variable(i);
            let c = TropicalPolynomial::constant(factor.clone());
            let ghost u = unit(N as nat, i as int);
            proof {
                assert(seq_add(u, zeros(N as nat)) =~= u);
                match factor@ {
                    Some(f) => {
                        lemma_mul_singles(u, 0, zeros(N as nat), f);
                        assert forall|a: Seq<int>, b: Seq<int>|
                            x@.contains_key(a) && c@.contains_key(b) implies #[trigger] fits_i64(seq_add(a, b)) by {
                        }
                    },
                    None => {
                        lemma_mul_single_left(u, 0, Map::empty());
                        lemma_shift_empty(u, 0);
                    },
                }
            }
            v.push(TropicalRational::polynomial(x.times(&c)));
            i += 1;
        }
        let r = TropicalAutomorphism { mappings: v };
        proof {
            assert(r@ =~= expected);
        }
        r
    }

    /// Coordinate `i` becomes `coefficients[i]` times the monomial whose
    /// exponents are row `i` of `degrees_matrix`; every degree must be positive.
    pub fn monomial(degrees_matrix: [[Degree; N]; N], coefficients: [TropicalInt; N]) -> (r: Self)
        requires
            forall|i: int, j: int| 0 <= i < N && 0 <= j < N ==> #[trigger] degrees_matrix@[i]@[j] > 0,
        ensures
            r@ == Seq::new(
                N as nat,
                |i: int| (monomial_map(key(degrees_matrix@[i]), coefficients@[i]@), one(N as nat)),
            ),
    {
        Self::monomial_unchecked(&degrees_matrix, &coefficients)
    }

    /// The monomial map of any integer degree matrix.
    fn monomial_unchecked(
        degrees_matrix: &[[Degree; N]; N],
        coefficients: &[TropicalInt; N],
    ) -> (r: Self)
        ensures
            r@ == Seq::new(
                N as nat,
                |i: int| (monomial_map(key(degrees_matrix@[i]), coefficients@[i]@), one(N as nat)),
            ),
    {
        let ghost expected = Seq::new(
            N as nat,
            |i: int| (monomial_map(key(degrees_matrix@[i]), coefficients@[i]@), one(N as nat)),
        );
        let mut v: Vec<TropicalRational<N>> = Vec::new();
        let mut i: usize = 0;
        while i < N
            invariant
                i <= N,
                v@.len() == i,
                expected == Seq::new(
                    N as nat,
                    |i: int| (monomial_map(key(degrees_matrix@[i]), coefficients@[i]@), one(N as nat)),
                ),
                forall|j: int| 0 <= j < i ==> (#[trigger] v@[j])@ == expected[j],
            decreases N - i,
        {
            v.push(
                TropicalRational::polynomial(
                    TropicalPolynomial::monomial(degrees_matrix[i], coefficients[i].clone()),
                ),
            );
            i += 1;
        }
        let r = TropicalAutomorphism { mappings: v };
        proof {
            assert(r@ =~= expected);
        }
        r
    }

    /// Coordinate `pivot` multiplied by `row`, a polynomial in the variables
    /// after `pivot` only; the other coordinates are left as they are.
    pub fn elementary_triangular(pivot: usize, row: TropicalPolynomial<N>) -> (r: Self)
        requires
            pivot < N,
            row_after(row@, pivot as int),
        ensures
            r@ == identity_map(N as nat).update(
                pivot as int,
                (shift(row@, unit(N as nat, pivot as int), 0), one(N as nat)),
            ),
    {
        let r = Self::triangular(pivot, row, true);
        r
    }

    /// Coordinate `pivot` divided by `row`, a polynomial in the variables after
    /// `pivot` only. Without reduction of fractions this is not, in general,
    /// the inverse of `elementary_triangular`.
    pub fn inverse_elementary_triangular(pivot: usize, row: TropicalPolynomial<N>) -> (r: Self)
        requires
            pivot < N,
            row_after(row@, pivot as int),
        ensures
            r@ == identity_map(N as nat).update(
                pivot as int,
                (single(unit(N as nat, pivot as int), 0), row@),
            ),
    {
        Self::triangular(pivot, row, false)
    }

    fn triangular(pivot: usize, row: TropicalPolynomial<N>, multiply: bool) -> (r: Self)
        requires
            pivot < N,
            row_after(row@, pivot as int),
        ensures
            r@ == identity_map(N as nat).update(
                pivot as int,
                if multiply {
                    (shift(row@, unit(N as nat, pivot as int), 0), one(N as nat))
                } else {
                    (single(unit(N as nat, pivot as int), 0), row@)
                },
            ),
    {
        let ghost u = unit(N as nat, pivot as int);
        let ghost z = zeros(N as nat);
        let ghost target = identity_map(N as nat).update(
            pivot as int,
            if multiply {
                (shift(row@, u, 0), one(N as nat))
            } else {
                (single(u, 0), row@)
            },
        );
        let mut v: Vec<TropicalRational<N>> = Vec::new();
        let mut i: usize = 0;
        while i < N
            invariant
                i <= N,
                pivot < N,
                v@.len() == i,
                u == unit(N as nat, pivot as int),
                z == zeros(N as nat),
                row_after(row@, pivot as int),
                target == identity_map(N as nat).update(
                    pivot as int,
                    if multiply {
                        (shift(row@, u, 0), one(N as nat))
                    } else {
                        (single(u, 0), row@)
                    },
                ),
                forall|j: int| 0 <= j < i ==> (#[trigger] v@[j])@ == target[j],
            decreases N - i,
        {
            let x = TropicalRational::polynomial(TropicalPolynomial::variable(i));
            if i == pivot {
                let y = TropicalRational::polynomial(row.clone());
                proof {
                    row.lemma_view();
                    lemma_one_times_one(N as nat);
                    lemma_mul_single_left(u, 0, row@);
                    lemma_mul_single_left(z, 0, row@);
                    lemma_mul_single_left(u, 0, one(N as nat));
                    assert forall|a: Seq<int>, b: Seq<int>|
                        x@.0.contains_key(a) && one(N as nat).contains_key(b) implies #[trigger] fits_i64(seq_add(a, b)) by {
                        assert(seq_add(a, b) =~= u);
                    }
                    lemma_shift_single(z, 0, u, 0);
                    assert(seq_add(u, z) =~= u);
                    assert forall|a: Seq<int>, b: Seq<int>|
                        x@.0.contains_key(a) && y@.0.contains_key(b) implies #[trigger] fits_i64(seq_add(a, b)) by {
                        assert(fits_i64(b));
                        assert forall|k: int| 0 <= k < seq_add(a, b).len() implies i64::MIN <= #[trigger] seq_add(a, b)[k] <= i64::MAX by {
                            assert(b[k] == b[k]);
                            if k == pivot {
                                assert(b[pivot as int] == 0);
                            }
                        }
                    }
                    assert forall|a: Seq<int>, b: Seq<int>|
                        one(N as nat).contains_key(a) && row@.contains_key(b) implies #[trigger] fits_i64(seq_add(a, b)) by {
                        assert(seq_add(a, b) =~= b);
                    }
                    assert forall|e: Seq<int>| #[trigger] row@.contains_key(e) implies shift(row@, z, 0).contains_key(e) && shift(row@, z, 0)[e] == row@[e] by {
                        assert(crate::poly_model::seq_sub(e, z) =~= e);
                    }
                    assert forall|e: Seq<int>| #[trigger] shift(row@, z, 0).contains_key(e) implies row@.contains_key(e) by {
                        assert(crate::poly_model::seq_sub(e, z) =~= e);
                    }
                    assert(shift(row@, z, 0) =~= row@);
                }
                if multiply {
                    v.push(x.times(&y));
                } else {
                    v.push(x.divided_by(&y));
                }
            } else {
                proof {
                    assert(x@ == target[i as int]);
                }
                v.push(x);
            }
            i += 1;
        }
        let r = TropicalAutomorphism { mappings: v };
        proof {
            assert(r@ =~= target);
        }
        r
    }

    /// Substitutes the numerator of coordinate `i` for variable `i` in `poly`
    /// and expands; the denominators are not used.
    pub fn apply(&self, poly: &TropicalPolynomial<N>) -> (r: TropicalPolynomial<N>)
        requires
            apply_fits(nums_of(self@), N as nat, poly@),
        ensures
            r@ == poly_apply(nums_of(self@), N as nat, poly@),
    {
        proof {
            use_type_invariant(self);
            assert(numerators(self.mappings@) =~= nums_of(self@));
        }
        poly.substitute(&self.mappings)
    }

    /// `apply`, or `None` exactly when an exponent of some intermediate
    /// product does not fit in a `Degree`.
    pub fn checked_apply(&self, poly: &TropicalPolynomial<N>) -> (r: Option<TropicalPolynomial<N>>)
        ensures
            match r {
                Some(x) => apply_fits(nums_of(self@), N as nat, poly@) && x@ == poly_apply(
                    nums_of(self@),
                    N as nat,
                    poly@,
                ),
                None => !apply_fits(nums_of(self@), N as nat, poly@),
            },
    {
        proof {
            use_type_invariant(self);
            assert(numerators(self.mappings@) =~= nums_of(self@));
        }
        poly.checked_substitute(&self.mappings)
    }

    /// `compose`, or `None` exactly when an exponent of some intermediate
    /// product does not fit in a `Degree`.
    pub fn checked_compose(&self, rhs: Self) -> (r: Option<Self>)
        ensures
            match r {
                Some(x) => compose_fits(self@, rhs@, N as nat) && x@ == compose_map(self@, rhs@, N as nat),
                None => !compose_fits(self@, rhs@, N as nat),
            },
    {
        proof {
            use_type_invariant(self);
        }
        let mut v: Vec<TropicalRational<N>> = Vec::new();
        let mut i: usize = 0;
        while i < N
            invariant
                i <= N,
                v@.len() == i,
                self.mappings@.len() == N,
                forall|j: int| 0 <= j < i ==> #[trigger] apply_fits(nums_of(rhs@), N as nat, self@[j].0),
                forall|j: int| 0 <= j < i ==> (#[trigger] v@[j])@ == compose_map(self@, rhs@, N as nat)[j],
            decreases N - i,
        {
            let m = &self.mappings[i];
            let numerator = match rhs.checked_apply(m.numerator()) {
                Some(x) => x,
                None => {
                    proof {
                        assert(!apply_fits(nums_of(rhs@), N as nat, self@[i as int].0));
                    }
                    return None;
                },
            };
            v.push(TropicalRational::new(numerator, m.denominator().clone()));
            i += 1;
        }
        let r = TropicalAutomorphism { mappings: v };
        proof {
            assert(r@ =~= compose_map(self@, rhs@, N as nat));
        }
        Some(r)
    }

    /// Applies `rhs` to the numerator of each coordinate of `self`, keeping
    /// the denominators of `self`.
    pub fn compose(&self, rhs: Self) -> (r: Self)
        requires
            compose_fits(self@, rhs@, N as nat),
        ensures
            r@ == compose_map(self@, rhs@, N as nat),
    {
        match self.checked_compose(rhs) {
            Some(r) => r,
            None => {
                proof {
                    assert(false);
                }
                Self::identity()
            },
        }
    }

    /// The coordinate maps as `(r0, r1, ...)`.
    pub fn to_text(&self) -> (r: String)
        ensures
            is_automorphism_text(self@, N as nat, r@),
    {
        proof {
            use_type_invariant(self);
        }
        let mut body = String::new();
        let ghost mut texts: Seq<Seq<char>> = Seq::empty();
        let mut i: usize = 0;
        while i < N
            invariant
                i <= N,
                self.mappings@.len() == N,
                texts.len() == i,
                forall|j: int| 0 <= j < i ==> is_rational_text(self@[j], N as nat, #[trigger] texts[j]),
                body@ == join(texts, ", "@),
            decreases N - i,
        {
            if i > 0 {
                body.append(", ");
            }
            let t = self.mappings[i].to_text();
            body.append(t.as_str());
            proof {
                let next = texts.push(t@);
                lemma_join_push(next, ", "@, i as int);
                assert(next.take(i + 1) =~= next);
                assert(next.take(i as int) =~= texts);
                assert(body@ =~= join(next, ", "@));
                texts = next;
            }
            i += 1;
        }
        let mut out = String::from_str("(");
        out.append(body.as_str());
        out.append(")");
        proof {
            assert(out@ =~= "("@ + join(texts, ", "@) + ")"@);
        }
        out
    }

    /// Equality of the coordinate maps as pairs.
    pub fn equals(&self, other: &Self) -> (r: bool)
        ensures
            r == (self@ == other@),
    {
        proof {
            use_type_invariant(self);
            use_type_invariant(other);
        }
        let mut i: usize = 0;
        while i < N
            invariant
                i <= N,
                self.mappings@.len() == N,
                other.mappings@.len() == N,
                forall|j: int| 0 <= j < i ==> (#[trigger] self@[j]) == other@[j],
            decreases N - i,
        {
            if !self.mappings[i].equals(&other.mappings[i]) {
                proof {
                    assert(self@[i as int] != other@[i as int]);
                }
                return false;
            }
            i += 1;
        }
        proof {
            assert(self@ =~= other@);
        }
        true
    }
}

proof fn lemma_product_bounds(x: int, y: int)
    requires
        i64::MIN <= x <= i64::MAX,
        i64::MIN <= y <= i64::MAX,
    ensures
        -0x3fff_ffff_ffff_ffff_8000_0000_0000_0000 <= x * y <= 0x4000_0000_0000_0000_0000_0000_0000_0000,
{
    if x >= 0 && y >= 0 {
        assert(x * y <= 0x7fff_ffff_ffff_ffff * 0x7fff_ffff_ffff_ffff) by (nonlinear_arith)
            requires 0 <= x <= 0x7fff_ffff_ffff_ffff, 0 <= y <= 0x7fff_ffff_ffff_ffff;
        assert(0 <= x * y) by (nonlinear_arith) requires 0 <= x, 0 <= y;
    } else if x < 0 && y < 0 {
        assert(x * y <= 0x8000_0000_0000_0000 * 0x8000_0000_0000_0000) by (nonlinear_arith)
            requires -0x8000_0000_0000_0000 <= x < 0, -0x8000_0000_0000_0000 <= y < 0;
        assert(0 <= x * y) by (nonlinear_arith) requires x < 0, y < 0;
    } else if x < 0 {
        assert(x * y >= -0x8000_0000_0000_0000 * 0x7fff_ffff_ffff_ffff) by (nonlinear_arith)
            requires -0x8000_0000_0000_0000 <= x < 0, 0 <= y <= 0x7fff_ffff_ffff_ffff;
        assert(x * y <= 0) by (nonlinear_arith) requires x < 0, 0 <= y;
    } else {
        assert(x * y >= 0x7fff_ffff_ffff_ffff * -0x8000_0000_0000_0000) by (nonlinear_arith)
            requires 0 <= x <= 0x7fff_ffff_ffff_ffff, -0x8000_0000_0000_0000 <= y < 0;
        assert(x * y <= 0) by (nonlinear_arith) requires 0 <= x, y < 0;
    }
}

/// Every entry of the degree matrix is positive.
pub open spec fn positive_degrees<const N: usize>(m: [[Degree; N]; N]) -> bool {
    forall|i: int, j: int| 0 <= i < N && 0 <= j < N ==> #[trigger] m@[i]@[j] > 0
}

/// Whether every term of `row` is free of the variables up to `pivot`.
fn only_after<const N: usize>(row: &TropicalPolynomial<N>, pivot: usize) -> (r: bool)
    requires
        pivot < N,
    ensures
        r == row_after(row@, pivot as int),
{
    let exps = row.exponents();
    proof {
        row.lemma_view();
    }
    let mut k: usize = 0;
    while k < exps.len()
        invariant
            k <= exps@.len(),
            pivot < N,
            has_dim(row@, N as nat),
            forall|l: int| 0 <= l < exps@.len() ==> row@.contains_key(key(#[trigger] exps@[l])),
            forall|e: Seq<int>| #[trigger] row@.contains_key(e) ==> exists|l: int| 0 <= l < exps@.len() && key(#[trigger] exps@[l]) == e,
            forall|l: int, j: int| 0 <= l < k && 0 <= j <= pivot ==> #[trigger] key(exps@[l])[j] == 0,
        decreases exps@.len() - k,
    {
        let mut j: usize = 0;
        while j <= pivot
            invariant
                j <= pivot + 1,
                pivot < N,
                k < exps@.len(),
                forall|l: int| 0 <= l < exps@.len() ==> row@.contains_key(key(#[trigger] exps@[l])),
                forall|i: int| 0 <= i < j ==> #[trigger] key(exps@[k as int])[i] == 0,
            decreases pivot + 1 - j,
        {
            if exps[k][j] != 0 {
                proof {
                    assert(row@.contains_key(key(exps@[k as int])));
                    assert(key(exps@[k as int])[j as int] != 0);
                }
                return false;
            }
            j += 1;
        }
        k += 1;
    }
    proof {
        assert forall|e: Seq<int>, j: int| row@.contains_key(e) && 0 <= j <= pivot implies #[trigger] e[j] == 0 by {
            let l = choose|l: int| 0 <= l < exps@.len() && key(#[trigger] exps@[l]) == e;
            assert(key(exps@[l])[j] == 0);
        }
    }
    true
}

impl<const N: usize> TropicalAutomorphism<N> {
    /// `monomial`, refusing a degree that is not positive.
    pub fn try_monomial(
        degrees_matrix: [[Degree; N]; N],
        coefficients: [TropicalInt; N],
    ) -> (r: Result<Self, AlgebraError>)
        ensures
            !positive_degrees(degrees_matrix) ==> r == Err::<Self, AlgebraError>(AlgebraError::NonPositiveMonomialDegree),
            positive_degrees(degrees_matrix) ==> r is Ok && r->Ok_0@ == Seq::new(
                N as nat,
                |i: int| (monomial_map(key(degrees_matrix@[i]), coefficients@[i]@), one(N as nat)),
            ),
    {
        let mut i: usize = 0;
        while i < N
            invariant
                i <= N,
                forall|k: int, j: int| 0 <= k < i && 0 <= j < N ==> #[trigger] degrees_matrix@[k]@[j] > 0,
            decreases N - i,
        {
            let mut j: usize = 0;
            while j < N
                invariant
                    i < N,
                    j <= N,
                    forall|k: int, l: int| 0 <= k < i && 0 <= l < N ==> #[trigger] degrees_matrix@[k]@[l] > 0,
                    forall|l: int| 0 <= l < j ==> #[trigger] degrees_matrix@[i as int]@[l] > 0,
                decreases N - j,
            {
                if degrees_matrix[i][j] <= 0 {
                    return Err(AlgebraError::NonPositiveMonomialDegree);
                }
                j += 1;
            }
            i += 1;
        }
        Ok(Self::monomial(degrees_matrix, coefficients))
    }

    /// `elementary_triangular`, refusing a pivot out of range or a row that
    /// depends on the pivot variable or one before it.
    pub fn try_elementary_triangular(
        pivot: usize,
        row: TropicalPolynomial<N>,
    ) -> (r: Result<Self, AlgebraError>)
        ensures
            pivot >= N ==> r == Err::<Self, AlgebraError>(AlgebraError::PivotOutOfRange),
            pivot < N && !row_after(row@, pivot as int) ==> r == Err::<Self, AlgebraError>(AlgebraError::PivotVariableDependency),
            pivot < N && row_after(row@, pivot as int) ==> r is Ok && r->Ok_0@ == identity_map(N as nat).update(
                pivot as int,
                (shift(row@, unit(N as nat, pivot as int), 0), one(N as nat)),
            ),
    {
        if pivot >= N {
            return Err(AlgebraError::PivotOutOfRange);
        }
        if !only_after(&row, pivot) {
            return Err(AlgebraError::PivotVariableDependency);
        }
        Ok(Self::elementary_triangular(pivot, row))
    }

    /// `inverse_elementary_triangular`, refusing what `try_elementary_triangular` refuses.
    pub fn try_inverse_elementary_triangular(
        pivot: usize,
        row: TropicalPolynomial<N>,
    ) -> (r: Result<Self, AlgebraError>)
        ensures
            pivot >= N ==> r == Err::<Self, AlgebraError>(AlgebraError::PivotOutOfRange),
            pivot < N && !row_after(row@, pivot as int) ==> r == Err::<Self, AlgebraError>(AlgebraError::PivotVariableDependency),
            pivot < N && row_after(row@, pivot as int) ==> r is Ok && r->Ok_0@ == identity_map(N as nat).update(
                pivot as int,
                (single(unit(N as nat, pivot as int), 0), row@),
            ),
    {
        if pivot >= N {
            return Err(AlgebraError::PivotOutOfRange);
        }
        if !only_after(&row, pivot) {
            return Err(AlgebraError::PivotVariableDependency);
        }
        Ok(Self::inverse_elementary_triangular(pivot, row))
    }

    /// Every numerator and denominator is a finite map whose exponent vectors
    /// have length `N`.
    pub proof fn lemma_view(&self)
        ensures
            self@.len() == N,
            forall|i: int| 0 <= i < N ==> (#[trigger] self@[i]).0.dom().finite() && has_dim(self@[i].0, N as nat)
                && self@[i].1.dom().finite() && has_dim(self@[i].1, N as nat),
    {
        assert forall|i: int| 0 <= i < N implies (#[trigger] self@[i]).0.dom().finite() && has_dim(self@[i].0, N as nat)
            && self@[i].1.dom().finite() && has_dim(self@[i].1, N as nat) by {
            self.mappings@[i].lemma_view();
        }
    }

    /// Applying an automorphism is additive: the images of two polynomials
    /// add up to the image of their sum.
    pub proof fn lemma_apply_additive(&self, u: &TropicalPolynomial<N>, v: &TropicalPolynomial<N>)
        ensures
            poly_add(poly_apply(nums_of(self@), N as nat, u@), poly_apply(nums_of(self@), N as nat, v@))
                == poly_apply(nums_of(self@), N as nat, poly_add(u@, v@)),
    {
        u.lemma_view();
        v.lemma_view();
        lemma_apply_add(nums_of(self@), N as nat, u@, v@);
    }

    /// Composing with the identity on the right does not change what an
    /// automorphism does to a polynomial, when no numerator has a negative
    /// exponent.
    pub proof fn lemma_compose_identity(&self, p: &TropicalPolynomial<N>)
        requires
            forall|i: int| 0 <= i < N ==> nonneg_exponents((#[trigger] self@[i]).0),
        ensures
            poly_apply(nums_of(compose_map(self@, identity_map(N as nat), N as nat)), N as nat, p@)
                == poly_apply(nums_of(self@), N as nat, p@),
    {
        self.lemma_view();
        assert(nums_of(identity_map(N as nat)) =~= variables(N as nat));
        assert forall|i: int| 0 <= i < N implies #[trigger] nums_of(compose_map(self@, identity_map(N as nat), N as nat))[i]
            == nums_of(self@)[i] by {
            lemma_apply_variables(self@[i].0, N as nat);
        }
        assert(nums_of(compose_map(self@, identity_map(N as nat), N as nat)) =~= nums_of(self@));
    }
}

impl TropicalAutomorphism<2> {
    /// The inverse of the monomial automorphism of a 2 by 2 degree matrix of
    /// determinant 1 or -1: the adjugate divided by the determinant, each
    /// coefficient raised to the power -1.
    pub fn inverse_monomial(
        degrees_matrix: [[Degree; 2]; 2],
        coefficients: [TropicalInt; 2],
    ) -> (r: Self)
        requires
            det2(degrees_matrix) == 1 || det2(degrees_matrix) == -1,
            negatable(degrees_matrix),
        ensures
            r@ == inverse_monomial_map(degrees_matrix, coefficients[0]@, coefficients[1]@),
    {
        let a = degrees_matrix[0][0];
        let b = degrees_matrix[0][1];
        let c = degrees_matrix[1][0];
        let d = degrees_matrix[1][1];
        proof {
            assert(degrees_matrix@[0]@[1] > i64::MIN);
            assert(degrees_matrix@[1]@[0] > i64::MIN);
            assert(degrees_matrix@[0]@[0] > i64::MIN);
            assert(degrees_matrix@[1]@[1] > i64::MIN);
            lemma_product_bounds(a as int, d as int);
            lemma_product_bounds(b as int, c as int);
        }
        let det: i128 = (a as i128) * (d as i128) - (b as i128) * (c as i128);
        let inverse: [[Degree; 2]; 2] = if det == 1 {
            [[d, -b], [-c, a]]
        } else {
            [[-d, b], [c, -a]]
        };
        let inverse_coefficients = [coefficients[0].pow(-1), coefficients[1].pow(-1)];
        let r = Self::monomial_unchecked(&inverse, &inverse_coefficients);
        proof {
            let dt = det2(degrees_matrix);
            assert(det as int == dt);
            assert(inverse@[0]@[0] as int == dt * d);
            assert(inverse@[0]@[1] as int == -dt * b);
            assert(inverse@[1]@[0] as int == -dt * c);
            assert(inverse@[1]@[1] as int == dt * a);
            assert(key(inverse[0]) =~= seq![dt * d, -dt * b]);
            assert(key(inverse[1]) =~= seq![-dt * c, dt * a]);
            assert(r@ =~= inverse_monomial_map(degrees_matrix, coefficients[0]@, coefficients[1]@));
        }
        r
    }
}

impl TropicalAutomorphism<2> {
    /// `inverse_monomial`, refusing a matrix of determinant other than 1 or
    /// -1, or one whose inverse has a degree out of range.
    pub fn try_inverse_monomial(
        degrees_matrix: [[Degree; 2]; 2],
        coefficients: [TropicalInt; 2],
    ) -> (r: Result<Self, AlgebraError>)
        ensures
            det2(degrees_matrix) == 0 ==> r == Err::<Self, AlgebraError>(AlgebraError::NonInvertibleDegreeMatrix),
            det2(degrees_matrix) != 0 && det2(degrees_matrix) != 1 && det2(degrees_matrix) != -1
                ==> r == Err::<Self, AlgebraError>(AlgebraError::NonUnitDeterminant),
            (det2(degrees_matrix) == 1 || det2(degrees_matrix) == -1) && !negatable(degrees_matrix)
                ==> r == Err::<Self, AlgebraError>(AlgebraError::DegreeOverflow),
            (det2(degrees_matrix) == 1 || det2(degrees_matrix) == -1) && negatable(degrees_matrix)
                ==> r is Ok && r->Ok_0@ == inverse_monomial_map(degrees_matrix, coefficients[0]@, coefficients[1]@),
    {
        let a = degrees_matrix[0][0];
        let b = degrees_matrix[0][1];
        let c = degrees_matrix[1][0];
        let d = degrees_matrix[1][1];
        proof {
            lemma_product_bounds(a as int, d as int);
            lemma_product_bounds(b as int, c as int);
        }
        let det: i128 = (a as i128) * (d as i128) - (b as i128) * (c as i128);
        if det == 0 {
            return Err(AlgebraError::NonInvertibleDegreeMatrix);
        }
        if det != 1 && det != -1 {
            return Err(AlgebraError::NonUnitDeterminant);
        }
        if a == i64::MIN || b == i64::MIN || c == i64::MIN || d == i64::MIN {
            proof {
                assert(!negatable(degrees_matrix)) by {
                    if a == i64::MIN { assert(degrees_matrix@[0]@[0] == i64::MIN); }
                    if b == i64::MIN { assert(degrees_matrix@[0]@[1] == i64::MIN); }
                    if c == i64::MIN { assert(degrees_matrix@[1]@[0] == i64::MIN); }
                    if d == i64::MIN { assert(degrees_matrix@[1]@[1] == i64::MIN); }
                }
            }
            return Err(AlgebraError::DegreeOverflow);
        }
        proof {
            assert forall|i: int, j: int| 0 <= i < 2 && 0 <= j < 2 implies #[trigger] degrees_matrix@[i]@[j] > i64::MIN by {
                if i == 0 && j == 0 { assert(degrees_matrix@[0]@[0] == a); }
                if i == 0 && j == 1 { assert(degrees_matrix@[0]@[1] == b); }
                if i == 1 && j == 0 { assert(degrees_matrix@[1]@[0] == c); }
                if i == 1 && j == 1 { assert(degrees_matrix@[1]@[1] == d); }
            }
        }
        Ok(Self::inverse_monomial(degrees_matrix, coefficients))
    }
}

impl<const N: usize> Clone for TropicalAutomorphism<N> {
    fn clone(&self) -> (r: Self)
        ensures
            r@ == self@,
    {
        proof {
            use_type_invariant(self);
        }
        let mut v: Vec<TropicalRational<N>> = Vec::new();
        let mut i: usize = 0;
        while i < N
            invariant
                i <= N,
                v@.len() == i,
                self.mappings@.len() == N,
                forall|j: int| 0 <= j < i ==> (#[trigger] v@[j])@ == self.mappings@[j]@,
            decreases N - i,
        {
            v.push(self.mappings[i].clone());
            i += 1;
        }
        let r = TropicalAutomorphism { mappings: v };
        proof {
            assert(r@ =~= self@);
        }
        r
    }
}

impl<const N: usize> PartialEq for TropicalAutomorphism<N> {
    fn eq(&self, other: &Self) -> (r: bool) {
        self.equals(other)
    }
}

impl<const N: usize> vstd::std_specs::cmp::PartialEqSpecImpl for TropicalAutomorphism<N> {
    open spec fn obeys_eq_spec() -> bool {
        true
    }

    open spec fn eq_spec(&self, other: &Self) -> bool {
        self@ == other@
    }
}

impl<const N: usize> Eq for TropicalAutomorphism<N> {}

} // verus!
