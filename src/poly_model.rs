//! The mathematical model of a tropical polynomial: a finite map from
//! exponent vectors to integer coefficients, an absent exponent standing for
//! the additive identity.
use crate::tropical_int::{tmax, tpow, ttimes};
use vstd::prelude::*;
use vstd::set::fold::{is_fun_commutative, lemma_fold_empty, lemma_fold_insert};

verus! {

/// A polynomial as its finite map of terms.
pub type TermMap = Map<Seq<int>, int>;

/// The larger of two integers.
pub open spec fn imax(a: int, b: int) -> int {
    if a >= b { a } else { b }
}

/// Component-wise sum of two exponent vectors.
pub open spec fn seq_add(a: Seq<int>, b: Seq<int>) -> Seq<int> {
    Seq::new(a.len(), |i: int| a[i] + b[i])
}

/// Component-wise difference of two exponent vectors.
pub open spec fn seq_sub(a: Seq<int>, b: Seq<int>) -> Seq<int> {
    Seq::new(a.len(), |i: int| a[i] - b[i])
}

/// The zero exponent vector of length `n`.
pub open spec fn zeros(n: nat) -> Seq<int> {
    Seq::new(n, |i: int| 0)
}

/// The exponent vector of the `i`-th variable: one at `i`, zero elsewhere.
pub open spec fn unit(n: nat, i: int) -> Seq<int> {
    Seq::new(n, |j: int| if j == i { 1int } else { 0int })
}

/// A single term.
pub open spec fn single(e: Seq<int>, c: int) -> TermMap {
    Map::empty().insert(e, c)
}

/// The single term `c x^e`, or no term when `c` is minus infinity.
pub open spec fn monomial_map(e: Seq<int>, c: Option<int>) -> TermMap {
    match c {
        Some(v) => single(e, v),
        None => Map::empty(),
    }
}

/// The multiplicative identity: the constant with integer coefficient zero.
pub open spec fn one(n: nat) -> TermMap {
    single(zeros(n), 0)
}

/// Every exponent vector has length `n`.
pub open spec fn has_dim(p: TermMap, n: nat) -> bool {
    forall|e: Seq<int>| #[trigger] p.contains_key(e) ==> e.len() == n
}

/// Tropical sum: union of the supports, the maximum where both have a term.
pub open spec fn poly_add(p: TermMap, q: TermMap) -> TermMap {
    Map::new(
        |e: Seq<int>| p.contains_key(e) || q.contains_key(e),
        |e: Seq<int>|
            if p.contains_key(e) && q.contains_key(e) {
                imax(p[e], q[e])
            } else if p.contains_key(e) {
                p[e]
            } else {
                q[e]
            },
    )
}

/// Offers coefficient `c` for exponent `e`: kept only where it is not below
/// the coefficient already there (`None` is minus infinity and changes nothing).
pub open spec fn add_term_spec(p: TermMap, e: Seq<int>, c: Option<int>) -> TermMap {
    match c {
        None => p,
        Some(v) => if p.contains_key(e) && v < p[e] { p } else { p.insert(e, v) },
    }
}

/// Every coefficient raised by `c` (tropical multiplication by a constant).
pub open spec fn scale(p: TermMap, c: int) -> TermMap {
    Map::new(|e: Seq<int>| p.contains_key(e), |e: Seq<int>| p[e] + c)
}

/// The product of `q` with the single term `c x^a`.
pub open spec fn shift(q: TermMap, a: Seq<int>, c: int) -> TermMap {
    Map::new(
        |e: Seq<int>| e.len() == a.len() && q.contains_key(seq_sub(e, a)),
        |e: Seq<int>| q[seq_sub(e, a)] + c,
    )
}

/// One step of `sum_over`: add the summand of `e` to the accumulator.
pub open spec fn sum_step(h: spec_fn(Seq<int>) -> TermMap) -> spec_fn(TermMap, Seq<int>) -> TermMap {
    |acc: TermMap, e: Seq<int>| poly_add(acc, h(e))
}

/// Tropical sum of `h(e)` over the finite set `s`.
pub open spec fn sum_over(s: Set<Seq<int>>, h: spec_fn(Seq<int>) -> TermMap) -> TermMap {
    s.fold(Map::empty(), sum_step(h))
}

/// The summand of the product for the term of `p` at `a`.
pub open spec fn mul_summand(p: TermMap, q: TermMap) -> spec_fn(Seq<int>) -> TermMap {
    |a: Seq<int>| shift(q, a, p[a])
}

/// Tropical product: the sum over the terms `c x^a` of `p` of `c x^a * q`.
pub open spec fn poly_mul(p: TermMap, q: TermMap) -> TermMap {
    sum_over(p.dom(), mul_summand(p, q))
}

/// `p` multiplied `k` times onto the identity; one for `k <= 0`.
pub open spec fn poly_pow(p: TermMap, n: nat, k: int) -> TermMap
    decreases k,
{
    if k <= 0 {
        one(n)
    } else {
        poly_mul(poly_pow(p, n, k - 1), p)
    }
}

/// Every component fits in an `i64`.
pub open spec fn fits_i64(e: Seq<int>) -> bool {
    forall|i: int| 0 <= i < e.len() ==> i64::MIN <= #[trigger] e[i] <= i64::MAX
}

/// Every pairwise exponent sum of the product of `p` and `q` fits in an `i64`.
pub open spec fn mul_fits(p: TermMap, q: TermMap) -> bool {
    forall|a: Seq<int>, b: Seq<int>|
        p.contains_key(a) && q.contains_key(b) ==> #[trigger] fits_i64(seq_add(a, b))
}

/// Every intermediate power met while computing `p` to the `k` fits.
pub open spec fn pow_fits(p: TermMap, n: nat, k: int) -> bool {
    forall|j: int| 0 <= j < k ==> mul_fits(#[trigger] poly_pow(p, n, j), p)
}

/// Every exponent vector of `p` fits in `i64`s.
pub open spec fn keys_fit(p: TermMap) -> bool {
    forall|e: Seq<int>| #[trigger] p.contains_key(e) ==> fits_i64(e)
}

/// The product over the first `j` variables of the `j`-th image raised to
/// the `j`-th exponent of `e`.
pub open spec fn monoprod(nums: Seq<TermMap>, n: nat, e: Seq<int>, j: int) -> TermMap
    decreases j,
{
    if j <= 0 {
        one(n)
    } else {
        poly_mul(monoprod(nums, n, e, j - 1), poly_pow(nums[j - 1], n, e[j - 1]))
    }
}

/// The image of the term of `p` at `e` under the substitution of `nums[i]`
/// for the `i`-th variable.
pub open spec fn apply_summand(nums: Seq<TermMap>, n: nat, p: TermMap) -> spec_fn(Seq<int>) -> TermMap {
    |e: Seq<int>| scale(monoprod(nums, n, e, n as int), p[e])
}

/// The substitution of `nums[i]` for the `i`-th variable in `p`, expanded.
pub open spec fn poly_apply(nums: Seq<TermMap>, n: nat, p: TermMap) -> TermMap {
    sum_over(p.dom(), apply_summand(nums, n, p))
}

/// No exponent overflows while the `i`-th factor of the image of `x^e` is formed.
pub open spec fn factor_fits(nums: Seq<TermMap>, n: nat, e: Seq<int>, i: int) -> bool {
    &&& pow_fits(nums[i], n, e[i])
    &&& mul_fits(monoprod(nums, n, e, i), poly_pow(nums[i], n, e[i]))
}

/// No exponent overflows while the substitution into `p` is expanded.
pub open spec fn apply_fits(nums: Seq<TermMap>, n: nat, p: TermMap) -> bool {
    forall|e: Seq<int>, i: int|
        p.contains_key(e) && 0 <= i < n ==> #[trigger] factor_fits(nums, n, e, i)
}

/// The tropical value of `x^e` at the point `pt`, over the first `j` variables.
pub open spec fn point_power(pt: Seq<Option<int>>, e: Seq<int>, j: int) -> Option<int>
    decreases j,
{
    if j <= 0 {
        Some(0)
    } else {
        ttimes(point_power(pt, e, j - 1), tpow(pt[j - 1], e[j - 1]))
    }
}

/// The tropical value of the term `c x^e` at the point `pt`.
pub open spec fn term_value(pt: Seq<Option<int>>, e: Seq<int>, c: int) -> Option<int> {
    ttimes(Some(c), point_power(pt, e, e.len() as int))
}

pub open spec fn eval_step(p: TermMap, pt: Seq<Option<int>>) -> spec_fn(Option<int>, Seq<int>) -> Option<int> {
    |acc: Option<int>, e: Seq<int>| tmax(acc, term_value(pt, e, p[e]))
}

/// The value of `p` at `pt`: the maximum of its terms' values, minus
/// infinity for the polynomial without terms.
pub open spec fn poly_eval(p: TermMap, pt: Seq<Option<int>>) -> Option<int> {
    p.dom().fold(None, eval_step(p, pt))
}

// ---------------------------------------------------------------- lemmas

pub proof fn lemma_eval_step_commutative(p: TermMap, pt: Seq<Option<int>>)
    ensures
        is_fun_commutative(eval_step(p, pt)),
{
}

pub proof fn lemma_eval_empty(p: TermMap, pt: Seq<Option<int>>)
    ensures
        Set::<Seq<int>>::empty().fold(None, eval_step(p, pt)) == None::<int>,
{
    lemma_fold_empty(None::<int>, eval_step(p, pt));
}

pub proof fn lemma_eval_insert(p: TermMap, pt: Seq<Option<int>>, s: Set<Seq<int>>, e: Seq<int>)
    requires
        s.finite(),
        !s.contains(e),
    ensures
        s.insert(e).fold(None, eval_step(p, pt)) == tmax(
            s.fold(None, eval_step(p, pt)),
            term_value(pt, e, p[e]),
        ),
{
    lemma_eval_step_commutative(p, pt);
    lemma_fold_insert(s, None::<int>, eval_step(p, pt), e);
}

pub proof fn lemma_sum_singleton(a: Seq<int>, h: spec_fn(Seq<int>) -> TermMap)
    ensures
        sum_over(set![a], h) == h(a),
{
    lemma_sum_empty(h);
    assert(Set::<Seq<int>>::empty().insert(a) =~= set![a]);
    lemma_sum_insert(Set::empty(), h, a);
    lemma_add_empty(h(a));
}

/// A single term times `m` is `m` shifted.
pub proof fn lemma_mul_single_left(a: Seq<int>, c: int, m: TermMap)
    ensures
        poly_mul(single(a, c), m) == shift(m, a, c),
{
    assert(single(a, c).dom() =~= set![a]);
    lemma_sum_singleton(a, mul_summand(single(a, c), m));
}

/// A constant times `m` raises every coefficient of `m`.
pub proof fn lemma_mul_constant_left(n: nat, c: int, m: TermMap)
    requires
        has_dim(m, n),
        keys_fit(m),
    ensures
        mul_fits(single(zeros(n), c), m),
        poly_mul(single(zeros(n), c), m) == scale(m, c),
{
    lemma_mul_single_left(zeros(n), c, m);
    assert forall|a: Seq<int>, b: Seq<int>|
        single(zeros(n), c).contains_key(a) && m.contains_key(b) implies #[trigger] fits_i64(seq_add(a, b)) by {
        assert(seq_add(a, b) =~= b);
    }
    assert forall|e: Seq<int>| e.len() == n implies seq_sub(e, zeros(n)) == e by {
        assert(seq_sub(e, zeros(n)) =~= e);
    }
    assert(shift(m, zeros(n), c) =~= scale(m, c));
}

pub proof fn lemma_shift_single(b: Seq<int>, d: int, a: Seq<int>, c: int)
    requires
        b.len() == a.len(),
    ensures
        shift(single(b, d), a, c) == single(seq_add(a, b), d + c),
{
    lemma_shift_empty(a, c);
    lemma_shift_insert(Map::empty(), a, c, b, d);
}

/// The product of two single terms is a single term.
pub proof fn lemma_mul_singles(a: Seq<int>, c: int, b: Seq<int>, d: int)
    requires
        b.len() == a.len(),
    ensures
        poly_mul(single(a, c), single(b, d)) == single(seq_add(a, b), d + c),
{
    lemma_mul_single_left(a, c, single(b, d));
    lemma_shift_single(b, d, a, c);
}

pub proof fn lemma_one_times_one(n: nat)
    ensures
        poly_mul(one(n), one(n)) == one(n),
        mul_fits(one(n), one(n)),
{
    lemma_mul_singles(zeros(n), 0, zeros(n), 0);
    assert(seq_add(zeros(n), zeros(n)) =~= zeros(n));
}

pub proof fn lemma_add_new_key(m: TermMap, e: Seq<int>, v: int)
    requires
        !m.contains_key(e),
    ensures
        poly_add(m, single(e, v)) == m.insert(e, v),
{
    assert(poly_add(m, single(e, v)) =~= m.insert(e, v));
}

pub proof fn lemma_shift_empty(a: Seq<int>, c: int)
    ensures
        shift(Map::empty(), a, c) == Map::<Seq<int>, int>::empty(),
{
    assert(shift(Map::empty(), a, c) =~= Map::<Seq<int>, int>::empty());
}

pub proof fn lemma_shift_insert(m: TermMap, a: Seq<int>, c: int, b: Seq<int>, d: int)
    requires
        has_dim(m, a.len()),
        b.len() == a.len(),
        !m.contains_key(b),
    ensures
        shift(m.insert(b, d), a, c) == shift(m, a, c).insert(seq_add(a, b), d + c),
        !shift(m, a, c).contains_key(seq_add(a, b)),
{
    let ab = seq_add(a, b);
    assert(seq_sub(ab, a) =~= b);
    assert forall|e: Seq<int>| e.len() == a.len() && seq_sub(e, a) == b implies e == ab by {
        assert forall|i: int| 0 <= i < e.len() implies e[i] == ab[i] by {
            assert(seq_sub(e, a)[i] == b[i]);
        }
        assert(e =~= ab);
    }
    assert(shift(m.insert(b, d), a, c) =~= shift(m, a, c).insert(ab, d + c));
}

pub proof fn lemma_add_comm(p: TermMap, q: TermMap)
    ensures
        poly_add(p, q) == poly_add(q, p),
{
    assert(poly_add(p, q) =~= poly_add(q, p));
}

pub proof fn lemma_add_assoc(p: TermMap, q: TermMap, r: TermMap)
    ensures
        poly_add(poly_add(p, q), r) == poly_add(p, poly_add(q, r)),
{
    assert(poly_add(poly_add(p, q), r) =~= poly_add(p, poly_add(q, r)));
}

pub proof fn lemma_add_empty(p: TermMap)
    ensures
        poly_add(p, Map::empty()) == p,
        poly_add(Map::empty(), p) == p,
{
    assert(poly_add(p, Map::empty()) =~= p);
    assert(poly_add(Map::empty(), p) =~= p);
}

pub proof fn lemma_add_finite(p: TermMap, q: TermMap)
    requires
        p.dom().finite(),
        q.dom().finite(),
    ensures
        poly_add(p, q).dom().finite(),
        poly_add(p, q).dom() == p.dom().union(q.dom()),
{
    assert(poly_add(p, q).dom() =~= p.dom().union(q.dom()));
}

pub proof fn lemma_add_term_is_add(p: TermMap, e: Seq<int>, v: int)
    ensures
        add_term_spec(p, e, Some(v)) == poly_add(p, single(e, v)),
{
    assert(add_term_spec(p, e, Some(v)) =~= poly_add(p, single(e, v)));
}

pub proof fn lemma_sum_step_commutative(h: spec_fn(Seq<int>) -> TermMap)
    ensures
        is_fun_commutative(sum_step(h)),
{
    assert forall|a1: Seq<int>, a2: Seq<int>, b: TermMap|
        #[trigger] sum_step(h)(sum_step(h)(b, a2), a1) == sum_step(h)(sum_step(h)(b, a1), a2) by {
        lemma_add_assoc(b, h(a2), h(a1));
        lemma_add_assoc(b, h(a1), h(a2));
        lemma_add_comm(h(a1), h(a2));
    }
}

pub proof fn lemma_sum_empty(h: spec_fn(Seq<int>) -> TermMap)
    ensures
        sum_over(Set::empty(), h) == Map::<Seq<int>, int>::empty(),
{
    lemma_fold_empty(Map::<Seq<int>, int>::empty(), sum_step(h));
}

pub proof fn lemma_sum_insert(s: Set<Seq<int>>, h: spec_fn(Seq<int>) -> TermMap, a: Seq<int>)
    requires
        s.finite(),
        !s.contains(a),
    ensures
        sum_over(s.insert(a), h) == poly_add(sum_over(s, h), h(a)),
{
    lemma_sum_step_commutative(h);
    lemma_fold_insert(s, Map::<Seq<int>, int>::empty(), sum_step(h), a);
}

/// The sum is determined by the values of `h` on `s`.
pub proof fn lemma_sum_congruent(
    s: Set<Seq<int>>,
    h1: spec_fn(Seq<int>) -> TermMap,
    h2: spec_fn(Seq<int>) -> TermMap,
)
    requires
        s.finite(),
        forall|e: Seq<int>| s.contains(e) ==> h1(e) == h2(e),
    ensures
        sum_over(s, h1) == sum_over(s, h2),
    decreases s.len(),
{
    if s.len() == 0 {
        assert(s =~= Set::empty());
        lemma_sum_empty(h1);
        lemma_sum_empty(h2);
    } else {
        let a = s.choose();
        let r = s.remove(a);
        assert(r.insert(a) =~= s);
        lemma_sum_congruent(r, h1, h2);
        lemma_sum_insert(r, h1, a);
        lemma_sum_insert(r, h2, a);
    }
}

/// Summing two families term by term is summing each and adding.
pub proof fn lemma_sum_split(
    s: Set<Seq<int>>,
    h: spec_fn(Seq<int>) -> TermMap,
    h1: spec_fn(Seq<int>) -> TermMap,
    h2: spec_fn(Seq<int>) -> TermMap,
)
    requires
        s.finite(),
        forall|e: Seq<int>| s.contains(e) ==> h(e) == poly_add(h1(e), h2(e)),
    ensures
        sum_over(s, h) == poly_add(sum_over(s, h1), sum_over(s, h2)),
    decreases s.len(),
{
    if s.len() == 0 {
        assert(s =~= Set::empty());
        lemma_sum_empty(h);
        lemma_sum_empty(h1);
        lemma_sum_empty(h2);
        lemma_add_empty(Map::empty());
    } else {
        let a = s.choose();
        let r = s.remove(a);
        assert(r.insert(a) =~= s);
        lemma_sum_split(r, h, h1, h2);
        lemma_sum_insert(r, h, a);
        lemma_sum_insert(r, h1, a);
        lemma_sum_insert(r, h2, a);
        let x = sum_over(r, h1);
        let y = sum_over(r, h2);
        assert(poly_add(poly_add(x, y), poly_add(h1(a), h2(a))) =~= poly_add(
            poly_add(x, h1(a)),
            poly_add(y, h2(a)),
        ));
    }
}

/// Elements on which `h` is empty contribute nothing.
pub proof fn lemma_sum_drop_empty(
    s: Set<Seq<int>>,
    t: Set<Seq<int>>,
    h: spec_fn(Seq<int>) -> TermMap,
)
    requires
        s.finite(),
        t.subset_of(s),
        forall|e: Seq<int>| s.contains(e) && !t.contains(e) ==> h(e) == Map::<Seq<int>, int>::empty(),
    ensures
        sum_over(s, h) == sum_over(t, h),
    decreases s.len(),
{
    if s.len() == 0 {
        assert(s =~= Set::empty());
        assert(t =~= Set::empty());
    } else {
        let a = s.choose();
        let r = s.remove(a);
        assert(r.insert(a) =~= s);
        lemma_sum_insert(r, h, a);
        if t.contains(a) {
            let tr = t.remove(a);
            assert(tr.insert(a) =~= t);
            lemma_sum_drop_empty(r, tr, h);
            vstd::set_lib::lemma_len_subset(t, s);
            lemma_sum_insert(tr, h, a);
        } else {
            lemma_sum_drop_empty(r, t, h);
            lemma_add_empty(sum_over(r, h));
        }
    }
}

/// The sum over a finite set of single terms taken from `p` gives back `p` on that set.
pub proof fn lemma_sum_singles(s: Set<Seq<int>>, p: TermMap)
    requires
        s.finite(),
        s.subset_of(p.dom()),
    ensures
        sum_over(s, |e: Seq<int>| single(e, p[e])) == p.restrict(s),
    decreases s.len(),
{
    let h = |e: Seq<int>| single(e, p[e]);
    if s.len() == 0 {
        assert(s =~= Set::empty());
        lemma_sum_empty(h);
        assert(p.restrict(s) =~= Map::empty());
    } else {
        let a = s.choose();
        let r = s.remove(a);
        assert(r.insert(a) =~= s);
        lemma_sum_singles(r, p);
        lemma_sum_insert(r, h, a);
        assert(poly_add(p.restrict(r), single(a, p[a])) =~= p.restrict(s));
    }
}

/// Raising by the larger of two constants is the tropical sum of the two raisings.
pub proof fn lemma_scale_max(p: TermMap, c: int, d: int)
    ensures
        scale(p, imax(c, d)) == poly_add(scale(p, c), scale(p, d)),
{
    assert(scale(p, imax(c, d)) =~= poly_add(scale(p, c), scale(p, d)));
}

/// Substitution distributes over tropical addition, whatever the images.
pub proof fn lemma_apply_add(nums: Seq<TermMap>, n: nat, u: TermMap, v: TermMap)
    requires
        u.dom().finite(),
        v.dom().finite(),
    ensures
        poly_add(poly_apply(nums, n, u), poly_apply(nums, n, v)) == poly_apply(nums, n, poly_add(u, v)),
{
    let w = poly_add(u, v);
    lemma_add_finite(u, v);
    let s = w.dom();
    let hu = |e: Seq<int>| if u.contains_key(e) { scale(monoprod(nums, n, e, n as int), u[e]) } else { Map::empty() };
    let hv = |e: Seq<int>| if v.contains_key(e) { scale(monoprod(nums, n, e, n as int), v[e]) } else { Map::empty() };
    let hw = apply_summand(nums, n, w);
    lemma_sum_congruent(u.dom(), apply_summand(nums, n, u), hu);
    lemma_sum_drop_empty(s, u.dom(), hu);
    lemma_sum_congruent(v.dom(), apply_summand(nums, n, v), hv);
    lemma_sum_drop_empty(s, v.dom(), hv);
    assert forall|e: Seq<int>| s.contains(e) implies hw(e) == poly_add(hu(e), hv(e)) by {
        let m = monoprod(nums, n, e, n as int);
        if u.contains_key(e) && v.contains_key(e) {
            lemma_scale_max(m, u[e], v[e]);
        } else if u.contains_key(e) {
            lemma_add_empty(scale(m, u[e]));
        } else {
            lemma_add_empty(scale(m, v[e]));
        }
    }
    lemma_sum_split(s, hw, hu, hv);
}

/// Every exponent is non-negative.
pub open spec fn nonneg_exponents(p: TermMap) -> bool {
    forall|e: Seq<int>, i: int| p.contains_key(e) && 0 <= i < e.len() ==> 0 <= #[trigger] e[i]
}

/// The images of the variables under the identity substitution.
pub open spec fn variables(n: nat) -> Seq<TermMap> {
    Seq::new(n, |i: int| single(unit(n, i), 0))
}

/// `k` times the `i`-th unit vector.
pub open spec fn scaled_unit(n: nat, i: int, k: int) -> Seq<int> {
    Seq::new(n, |j: int| if j == i { k } else { 0int })
}

/// The first `j` components of `e`, zero after.
pub open spec fn prefix_vec(e: Seq<int>, n: nat, j: int) -> Seq<int> {
    Seq::new(n, |m: int| if m < j { e[m] } else { 0int })
}

pub proof fn lemma_pow_variable(n: nat, i: int, k: int)
    requires
        0 <= k,
    ensures
        poly_pow(single(unit(n, i), 0), n, k) == single(scaled_unit(n, i, k), 0),
    decreases k,
{
    if k == 0 {
        assert(scaled_unit(n, i, 0) =~= zeros(n));
    } else {
        lemma_pow_variable(n, i, k - 1);
        lemma_mul_singles(scaled_unit(n, i, k - 1), 0, unit(n, i), 0);
        assert(seq_add(scaled_unit(n, i, k - 1), unit(n, i)) =~= scaled_unit(n, i, k));
    }
}

pub proof fn lemma_monoprod_variables(e: Seq<int>, n: nat, j: int)
    requires
        e.len() == n,
        0 <= j <= n,
        forall|i: int| 0 <= i < n ==> 0 <= #[trigger] e[i],
    ensures
        monoprod(variables(n), n, e, j) == single(prefix_vec(e, n, j), 0),
    decreases j,
{
    if j == 0 {
        assert(prefix_vec(e, n, 0) =~= zeros(n));
    } else {
        lemma_monoprod_variables(e, n, j - 1);
        lemma_pow_variable(n, j - 1, e[j - 1]);
        lemma_mul_singles(prefix_vec(e, n, j - 1), 0, scaled_unit(n, j - 1, e[j - 1]), 0);
        assert(seq_add(prefix_vec(e, n, j - 1), scaled_unit(n, j - 1, e[j - 1])) =~= prefix_vec(e, n, j));
    }
}

/// Substituting each variable for itself changes nothing, for exponents
/// that are not negative (a negative power is the identity).
pub proof fn lemma_apply_variables(q: TermMap, n: nat)
    requires
        q.dom().finite(),
        has_dim(q, n),
        nonneg_exponents(q),
    ensures
        poly_apply(variables(n), n, q) == q,
{
    let h = |e: Seq<int>| single(e, q[e]);
    assert forall|e: Seq<int>| q.dom().contains(e) implies apply_summand(variables(n), n, q)(e) == h(e) by {
        lemma_monoprod_variables(e, n, n as int);
        assert(prefix_vec(e, n, n as int) =~= e);
        assert(scale(single(e, 0), q[e]) =~= single(e, q[e]));
    }
    lemma_sum_congruent(q.dom(), apply_summand(variables(n), n, q), h);
    lemma_sum_singles(q.dom(), q);
    assert(q.restrict(q.dom()) =~= q);
}

/// What `mul_summand` holds at each exponent vector.
proof fn lemma_shift_pointwise(q: TermMap, a: Seq<int>, c: int, n: nat)
    requires
        a.len() == n,
        has_dim(q, n),
    ensures
        forall|b: Seq<int>| #[trigger] q.contains_key(b) ==> shift(q, a, c).contains_key(seq_add(a, b))
            && shift(q, a, c)[seq_add(a, b)] == q[b] + c,
        forall|e: Seq<int>| #[trigger] shift(q, a, c).contains_key(e) ==> q.contains_key(seq_sub(e, a))
            && e == seq_add(a, seq_sub(e, a)) && shift(q, a, c)[e] == q[seq_sub(e, a)] + c,
{
    assert forall|b: Seq<int>| #[trigger] q.contains_key(b) implies shift(q, a, c).contains_key(seq_add(a, b))
        && shift(q, a, c)[seq_add(a, b)] == q[b] + c by {
        assert(seq_sub(seq_add(a, b), a) =~= b);
    }
    assert forall|e: Seq<int>| #[trigger] shift(q, a, c).contains_key(e) implies e == seq_add(a, seq_sub(e, a)) by {
        assert(e =~= seq_add(a, seq_sub(e, a)));
    }
}

/// The product term by term: an exponent vector carries a term exactly when
/// it is the sum of one of `p` and one of `q`, and its coefficient is the
/// largest sum of coefficients over such pairs.
pub proof fn lemma_mul_pointwise(p: TermMap, q: TermMap, n: nat)
    requires
        p.dom().finite(),
        has_dim(p, n),
        has_dim(q, n),
    ensures
        forall|a: Seq<int>, b: Seq<int>|
            p.contains_key(a) && q.contains_key(b) ==> #[trigger] poly_mul(p, q).contains_key(seq_add(a, b))
                && p[a] + q[b] <= poly_mul(p, q)[seq_add(a, b)],
        forall|e: Seq<int>|
            #[trigger] poly_mul(p, q).contains_key(e) ==> exists|a: Seq<int>, b: Seq<int>|
                p.contains_key(a) && q.contains_key(b) && e == seq_add(a, b) && poly_mul(p, q)[e] == p[a] + q[b],
{
    lemma_sum_pointwise(p, q, n, p.dom());
}

proof fn lemma_sum_pointwise(p: TermMap, q: TermMap, n: nat, s: Set<Seq<int>>)
    requires
        s.finite(),
        s.subset_of(p.dom()),
        has_dim(p, n),
        has_dim(q, n),
    ensures
        forall|a: Seq<int>, b: Seq<int>|
            s.contains(a) && q.contains_key(b) ==> #[trigger] sum_over(s, mul_summand(p, q)).contains_key(seq_add(a, b))
                && p[a] + q[b] <= sum_over(s, mul_summand(p, q))[seq_add(a, b)],
        forall|e: Seq<int>|
            #[trigger] sum_over(s, mul_summand(p, q)).contains_key(e) ==> exists|a: Seq<int>, b: Seq<int>|
                s.contains(a) && q.contains_key(b) && e == seq_add(a, b) && sum_over(s, mul_summand(p, q))[e] == p[a] + q[b],
    decreases s.len(),
{
    let h = mul_summand(p, q);
    if s.len() == 0 {
        assert(s =~= Set::empty());
        lemma_sum_empty(h);
    } else {
        let a0 = s.choose();
        let r = s.remove(a0);
        assert(r.insert(a0) =~= s);
        lemma_sum_pointwise(p, q, n, r);
        lemma_sum_insert(r, h, a0);
        let x = sum_over(r, h);
        let y = shift(q, a0, p[a0]);
        lemma_shift_pointwise(q, a0, p[a0], n);
        assert forall|a: Seq<int>, b: Seq<int>|
            s.contains(a) && q.contains_key(b) implies #[trigger] sum_over(s, h).contains_key(seq_add(a, b))
                && p[a] + q[b] <= sum_over(s, h)[seq_add(a, b)] by {
            if a != a0 {
                assert(r.contains(a));
                assert(x.contains_key(seq_add(a, b)));
            } else {
                assert(y.contains_key(seq_add(a, b)));
            }
        }
        assert forall|e: Seq<int>| #[trigger] sum_over(s, h).contains_key(e) implies exists|a: Seq<int>, b: Seq<int>|
            s.contains(a) && q.contains_key(b) && e == seq_add(a, b) && sum_over(s, h)[e] == p[a] + q[b] by {
            if x.contains_key(e) && (!y.contains_key(e) || x[e] >= y[e]) {
                let (a, b) = choose|a: Seq<int>, b: Seq<int>|
                    r.contains(a) && q.contains_key(b) && e == seq_add(a, b) && x[e] == p[a] + q[b];
                assert(s.contains(a));
            } else {
                let b = seq_sub(e, a0);
                assert(y.contains_key(e));
                assert(q.contains_key(b) && e == seq_add(a0, b));
            }
        }
    }
}

/// The value of a polynomial at a point is the largest value of its terms
/// there: no term exceeds it, and it is minus infinity or the value of one term.
pub proof fn lemma_eval_is_max(p: TermMap, pt: Seq<Option<int>>, s: Set<Seq<int>>)
    requires
        s.finite(),
    ensures
        forall|e: Seq<int>| #[trigger] s.contains(e) ==> tmax(
            s.fold(None, eval_step(p, pt)),
            term_value(pt, e, p[e]),
        ) == s.fold(None, eval_step(p, pt)),
        s.fold(None, eval_step(p, pt)) is None || exists|e: Seq<int>|
            s.contains(e) && s.fold(None, eval_step(p, pt)) == term_value(pt, e, p[e]),
    decreases s.len(),
{
    if s.len() == 0 {
        assert(s =~= Set::empty());
        lemma_eval_empty(p, pt);
    } else {
        let a = s.choose();
        let r = s.remove(a);
        assert(r.insert(a) =~= s);
        lemma_eval_is_max(p, pt, r);
        lemma_eval_insert(p, pt, r, a);
        let x = r.fold(None, eval_step(p, pt));
        let v = s.fold(None, eval_step(p, pt));
        assert forall|e: Seq<int>| #[trigger] s.contains(e) implies tmax(v, term_value(pt, e, p[e])) == v by {
            if e != a {
                assert(r.contains(e));
            }
        }
        if v is Some {
            if v == term_value(pt, a, p[a]) {
                assert(s.contains(a));
            } else {
                let e = choose|e: Seq<int>| r.contains(e) && x == term_value(pt, e, p[e]);
                assert(s.contains(e));
            }
        }
    }
}

/// Adding a polynomial to itself changes nothing.
pub proof fn lemma_add_idempotent(p: TermMap)
    ensures
        poly_add(p, p) == p,
{
    assert(poly_add(p, p) =~= p);
}

/// Every exponent lies between `-b` and `b`.
pub open spec fn exponents_within(p: TermMap, b: int) -> bool {
    forall|e: Seq<int>, i: int| p.contains_key(e) && 0 <= i < e.len() ==> -b <= #[trigger] e[i] <= b
}

/// The product of two finite polynomials is finite.
pub proof fn lemma_mul_finite(p: TermMap, q: TermMap, n: nat)
    requires
        p.dom().finite(),
        q.dom().finite(),
        has_dim(p, n),
        has_dim(q, n),
    ensures
        poly_mul(p, q).dom().finite(),
        has_dim(poly_mul(p, q), n),
{
    lemma_sum_finite(p, q, n, p.dom());
    lemma_mul_pointwise(p, q, n);
    assert forall|e: Seq<int>| #[trigger] poly_mul(p, q).contains_key(e) implies e.len() == n by {
        let (a, b) = choose|a: Seq<int>, b: Seq<int>|
            p.contains_key(a) && q.contains_key(b) && e == seq_add(a, b) && poly_mul(p, q)[e] == p[a] + q[b];
    }
}

proof fn lemma_sum_finite(p: TermMap, q: TermMap, n: nat, s: Set<Seq<int>>)
    requires
        s.finite(),
        s.subset_of(p.dom()),
        q.dom().finite(),
        has_dim(p, n),
        has_dim(q, n),
    ensures
        sum_over(s, mul_summand(p, q)).dom().finite(),
    decreases s.len(),
{
    let h = mul_summand(p, q);
    if s.len() == 0 {
        assert(s =~= Set::empty());
        lemma_sum_empty(h);
    } else {
        let a = s.choose();
        let r = s.remove(a);
        assert(r.insert(a) =~= s);
        lemma_sum_finite(p, q, n, r);
        lemma_sum_insert(r, h, a);
        let f = |b: Seq<int>| seq_add(a, b);
        q.dom().lemma_map_finite(f);
        lemma_shift_pointwise(q, a, p[a], n);
        assert forall|e: Seq<int>| #[trigger] shift(q, a, p[a]).contains_key(e) implies q.dom().map(f).contains(e) by {
            assert(q.dom().contains(seq_sub(e, a)));
        }
        vstd::set_lib::lemma_len_subset(shift(q, a, p[a]).dom(), q.dom().map(f));
        assert(shift(q, a, p[a]).dom().subset_of(q.dom().map(f)));
        vstd::set_lib::lemma_set_subset_finite(q.dom().map(f), shift(q, a, p[a]).dom());
        lemma_add_finite(sum_over(r, h), shift(q, a, p[a]));
    }
}

/// Exponents within `b1` and `b2` whose sum fits in an `i64` cannot overflow
/// in the product.
pub proof fn lemma_mul_fits_within(p: TermMap, q: TermMap, n: nat, b1: int, b2: int)
    requires
        has_dim(p, n),
        has_dim(q, n),
        exponents_within(p, b1),
        exponents_within(q, b2),
        b1 + b2 <= i64::MAX,
    ensures
        mul_fits(p, q),
{
    assert forall|a: Seq<int>, b: Seq<int>| p.contains_key(a) && q.contains_key(b) implies #[trigger] fits_i64(
        seq_add(a, b),
    ) by {
        assert forall|i: int| 0 <= i < seq_add(a, b).len() implies i64::MIN <= #[trigger] seq_add(a, b)[i]
            <= i64::MAX by {
            assert(-b1 <= a[i] <= b1);
            assert(-b2 <= b[i] <= b2);
        }
    }
}

/// The exponents of the `j`-th power stay within `j` times those of `p`.
pub proof fn lemma_pow_within(p: TermMap, n: nat, b: int, j: int)
    requires
        p.dom().finite(),
        has_dim(p, n),
        exponents_within(p, b),
        0 <= b,
        0 <= j,
    ensures
        exponents_within(poly_pow(p, n, j), j * b),
        poly_pow(p, n, j).dom().finite(),
        has_dim(poly_pow(p, n, j), n),
    decreases j,
{
    if j == 0 {
        assert(one(n).dom() =~= set![zeros(n)]);
    } else {
        lemma_pow_within(p, n, b, j - 1);
        let x = poly_pow(p, n, j - 1);
        lemma_mul_finite(x, p, n);
        lemma_mul_pointwise(x, p, n);
        assert forall|e: Seq<int>, i: int| poly_mul(x, p).contains_key(e) && 0 <= i < e.len() implies -(j * b)
            <= #[trigger] e[i] <= j * b by {
            let (a, c) = choose|a: Seq<int>, c: Seq<int>|
                x.contains_key(a) && p.contains_key(c) && e == seq_add(a, c) && poly_mul(x, p)[e] == x[a] + p[c];
            assert(-((j - 1) * b) <= a[i] <= (j - 1) * b);
            assert(-b <= c[i] <= b);
            assert((j - 1) * b + b == j * b) by (nonlinear_arith);
        }
    }
}

/// Exponents within `b`, with `k` times `b` fitting in an `i64`, cannot
/// overflow while `p` is raised to the power `k`.
pub proof fn lemma_pow_fits_within(p: TermMap, n: nat, b: int, k: int)
    requires
        p.dom().finite(),
        has_dim(p, n),
        exponents_within(p, b),
        0 <= b,
        0 <= k,
        k * b <= i64::MAX,
    ensures
        pow_fits(p, n, k),
{
    assert forall|j: int| 0 <= j < k implies mul_fits(#[trigger] poly_pow(p, n, j), p) by {
        lemma_pow_within(p, n, b, j);
        assert(j * b + b <= k * b) by (nonlinear_arith)
            requires 0 <= j < k, 0 <= b;
        lemma_mul_fits_within(poly_pow(p, n, j), p, n, j * b, b);
    }
}

/// The product of polynomials is commutative.
pub proof fn lemma_mul_comm(p: TermMap, q: TermMap, n: nat)
    requires
        p.dom().finite(),
        q.dom().finite(),
        has_dim(p, n),
        has_dim(q, n),
    ensures
        poly_mul(p, q) == poly_mul(q, p),
{
    lemma_mul_pointwise(p, q, n);
    lemma_mul_pointwise(q, p, n);
    let pq = poly_mul(p, q);
    let qp = poly_mul(q, p);
    assert forall|a: Seq<int>, b: Seq<int>| a.len() == n && b.len() == n implies seq_add(a, b) == seq_add(b, a) by {
        assert(seq_add(a, b) =~= seq_add(b, a));
    }
    assert forall|e: Seq<int>| pq.contains_key(e) implies qp.contains_key(e) && pq[e] <= qp[e] by {
        let (a, b) = choose|a: Seq<int>, b: Seq<int>|
            p.contains_key(a) && q.contains_key(b) && e == seq_add(a, b) && pq[e] == p[a] + q[b];
        assert(qp.contains_key(seq_add(b, a)));
    }
    assert forall|e: Seq<int>| qp.contains_key(e) implies pq.contains_key(e) && qp[e] <= pq[e] by {
        let (b, a) = choose|b: Seq<int>, a: Seq<int>|
            q.contains_key(b) && p.contains_key(a) && e == seq_add(b, a) && qp[e] == q[b] + p[a];
        assert(pq.contains_key(seq_add(a, b)));
    }
    assert(pq =~= qp);
}

/// The product distributes over the tropical sum.
pub proof fn lemma_mul_distributes(p: TermMap, q: TermMap, r: TermMap, n: nat)
    requires
        p.dom().finite(),
        q.dom().finite(),
        r.dom().finite(),
        has_dim(p, n),
        has_dim(q, n),
        has_dim(r, n),
    ensures
        poly_mul(p, poly_add(q, r)) == poly_add(poly_mul(p, q), poly_mul(p, r)),
{
    let qr = poly_add(q, r);
    let lhs = poly_mul(p, qr);
    let pq = poly_mul(p, q);
    let pr = poly_mul(p, r);
    let rhs = poly_add(pq, pr);
    lemma_add_finite(q, r);
    assert(has_dim(qr, n));
    lemma_mul_pointwise(p, qr, n);
    lemma_mul_pointwise(p, q, n);
    lemma_mul_pointwise(p, r, n);
    assert forall|e: Seq<int>| lhs.contains_key(e) implies rhs.contains_key(e) && lhs[e] <= rhs[e] by {
        let (a, b) = choose|a: Seq<int>, b: Seq<int>|
            p.contains_key(a) && qr.contains_key(b) && e == seq_add(a, b) && lhs[e] == p[a] + qr[b];
        if q.contains_key(b) && (!r.contains_key(b) || q[b] >= r[b]) {
            assert(pq.contains_key(seq_add(a, b)));
        } else {
            assert(pr.contains_key(seq_add(a, b)));
        }
    }
    assert forall|e: Seq<int>| rhs.contains_key(e) implies lhs.contains_key(e) && rhs[e] <= lhs[e] by {
        if pq.contains_key(e) {
            let (a, b) = choose|a: Seq<int>, b: Seq<int>|
                p.contains_key(a) && q.contains_key(b) && e == seq_add(a, b) && pq[e] == p[a] + q[b];
            assert(qr.contains_key(b));
            assert(lhs.contains_key(seq_add(a, b)));
        }
        if pr.contains_key(e) {
            let (a, b) = choose|a: Seq<int>, b: Seq<int>|
                p.contains_key(a) && r.contains_key(b) && e == seq_add(a, b) && pr[e] == p[a] + r[b];
            assert(qr.contains_key(b));
            assert(lhs.contains_key(seq_add(a, b)));
        }
    }
    assert(lhs =~= rhs);
}

/// The product of polynomials is associative.
pub proof fn lemma_mul_assoc(p: TermMap, q: TermMap, r: TermMap, n: nat)
    requires
        p.dom().finite(),
        q.dom().finite(),
        r.dom().finite(),
        has_dim(p, n),
        has_dim(q, n),
        has_dim(r, n),
    ensures
        poly_mul(poly_mul(p, q), r) == poly_mul(p, poly_mul(q, r)),
{
    let pq = poly_mul(p, q);
    let qr = poly_mul(q, r);
    let lhs = poly_mul(pq, r);
    let rhs = poly_mul(p, qr);
    lemma_mul_finite(p, q, n);
    lemma_mul_finite(q, r, n);
    lemma_mul_pointwise(p, q, n);
    lemma_mul_pointwise(q, r, n);
    lemma_mul_pointwise(pq, r, n);
    lemma_mul_pointwise(p, qr, n);
    assert forall|a: Seq<int>, b: Seq<int>, c: Seq<int>| a.len() == n && b.len() == n && c.len() == n implies seq_add(
        seq_add(a, b),
        c,
    ) == seq_add(a, seq_add(b, c)) by {
        assert(seq_add(seq_add(a, b), c) =~= seq_add(a, seq_add(b, c)));
    }
    assert forall|e: Seq<int>| lhs.contains_key(e) implies rhs.contains_key(e) && lhs[e] <= rhs[e] by {
        let (x, c) = choose|x: Seq<int>, c: Seq<int>|
            pq.contains_key(x) && r.contains_key(c) && e == seq_add(x, c) && lhs[e] == pq[x] + r[c];
        let (a, b) = choose|a: Seq<int>, b: Seq<int>|
            p.contains_key(a) && q.contains_key(b) && x == seq_add(a, b) && pq[x] == p[a] + q[b];
        assert(qr.contains_key(seq_add(b, c)));
        assert(rhs.contains_key(seq_add(a, seq_add(b, c))));
    }
    assert forall|e: Seq<int>| rhs.contains_key(e) implies lhs.contains_key(e) && rhs[e] <= lhs[e] by {
        let (a, y) = choose|a: Seq<int>, y: Seq<int>|
            p.contains_key(a) && qr.contains_key(y) && e == seq_add(a, y) && rhs[e] == p[a] + qr[y];
        let (b, c) = choose|b: Seq<int>, c: Seq<int>|
            q.contains_key(b) && r.contains_key(c) && y == seq_add(b, c) && qr[y] == q[b] + r[c];
        assert(pq.contains_key(seq_add(a, b)));
        assert(lhs.contains_key(seq_add(seq_add(a, b), c)));
    }
    assert(lhs =~= rhs);
}

/// The constant zero is neutral for the product, on either side.
pub proof fn lemma_mul_one(p: TermMap, n: nat)
    requires
        p.dom().finite(),
        has_dim(p, n),
    ensures
        poly_mul(one(n), p) == p,
        poly_mul(p, one(n)) == p,
{
    lemma_mul_single_left(zeros(n), 0, p);
    assert forall|e: Seq<int>| e.len() == n implies seq_sub(e, zeros(n)) == e by {
        assert(seq_sub(e, zeros(n)) =~= e);
    }
    assert(shift(p, zeros(n), 0) =~= p);
    assert(one(n).dom() =~= set![zeros(n)]);
    lemma_mul_comm(p, one(n), n);
}

/// The polynomial without terms absorbs the product, on either side.
pub proof fn lemma_mul_empty(p: TermMap)
    requires
        p.dom().finite(),
    ensures
        poly_mul(Map::empty(), p) == Map::<Seq<int>, int>::empty(),
        poly_mul(p, Map::empty()) == Map::<Seq<int>, int>::empty(),
{
    assert(Map::<Seq<int>, int>::empty().dom() =~= Set::empty());
    lemma_sum_empty(mul_summand(Map::empty(), p));
    let h = mul_summand(p, Map::empty());
    assert forall|a: Seq<int>| p.dom().contains(a) && !Set::<Seq<int>>::empty().contains(a) implies h(a)
        == Map::<Seq<int>, int>::empty() by {
        lemma_shift_empty(a, p[a]);
    }
    lemma_sum_drop_empty(p.dom(), Set::empty(), h);
    lemma_sum_empty(h);
}

} // verus!
