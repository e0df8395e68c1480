//! Sparse multivariate polynomials over the tropical semiring.
use crate::poly_model::{
    add_term_spec, apply_fits, apply_summand, eval_step, factor_fits, fits_i64, has_dim, keys_fit,
    lemma_add_assoc, lemma_add_empty, lemma_add_new_key, lemma_add_term_is_add, lemma_eval_empty,
    lemma_eval_insert, lemma_eval_is_max, lemma_mul_constant_left, lemma_mul_empty, lemma_mul_pointwise,
    lemma_shift_empty, lemma_shift_insert, lemma_sum_empty, lemma_sum_insert,
    monomial_map, monoprod, mul_fits, mul_summand, one, point_power, poly_add, poly_apply,
    poly_eval, poly_mul, poly_pow, pow_fits, seq_add, shift, single, sum_over, term_value, unit,
    zeros, TermMap,
};
use crate::text::{decimal, degree_text, index_text, join, lemma_join_push};
use crate::tropical_int::{scalar_text, tmax, TropicalInt};
use crate::tropical_rational::{numerators, TropicalRational};
use vstd::prelude::*;

verus! {

/// The integer type of an exponent.
pub type Degree = i64;

/// An exponent vector as a sequence of integers.
pub open spec fn key<const N: usize>(e: [Degree; N]) -> Seq<int> {
    Seq::new(N as nat, |i: int| e@[i] as int)
}

/// The integer coefficient of a stored term.
pub open spec fn coef(c: TropicalInt) -> int {
    match c@ {
        Some(v) => v,
        None => 0,
    }
}

/// The map that a list of terms with distinct exponents denotes.
pub open spec fn terms_map<const N: usize>(s: Seq<([Degree; N], TropicalInt)>) -> TermMap
    decreases s.len(),
{
    if s.len() == 0 {
        Map::empty()
    } else {
        terms_map(s.drop_last()).insert(key(s.last().0), coef(s.last().1))
    }
}

/// Lexicographic order of exponent vectors of one length.
pub open spec fn lex_lt(a: Seq<int>, b: Seq<int>) -> bool {
    exists|k: int|
        0 <= k < a.len() && k < b.len() && a[k] < b[k] && forall|i: int| 0 <= i < k ==> #[trigger] a[i] == b[i]
}

pub proof fn lemma_lex_lt(a: Seq<int>, b: Seq<int>, c: Seq<int>)
    ensures
        !lex_lt(a, a),
        lex_lt(a, b) && lex_lt(b, c) ==> lex_lt(a, c),
{
    if lex_lt(a, b) && lex_lt(b, c) {
        let k1 = choose|k: int|
            0 <= k < a.len() && k < b.len() && a[k] < b[k] && forall|i: int| 0 <= i < k ==> #[trigger] a[i] == b[i];
        let k2 = choose|k: int|
            0 <= k < b.len() && k < c.len() && b[k] < c[k] && forall|i: int| 0 <= i < k ==> #[trigger] b[i] == c[i];
        let k = if k1 <= k2 { k1 } else { k2 };
        assert(a[k] < c[k]);
        assert forall|i: int| 0 <= i < k implies #[trigger] a[i] == c[i] by {
            assert(a[i] == b[i]);
        }
    }
}

/// The exponent vectors are in increasing lexicographic order.
pub open spec fn terms_sorted<const N: usize>(s: Seq<([Degree; N], TropicalInt)>) -> bool {
    forall|j: int, k: int| 0 <= j < k < s.len() ==> lex_lt(key((#[trigger] s[j]).0), key((#[trigger] s[k]).0))
}

/// A sorted list of terms with distinct exponent vectors and no coefficient
/// equal to the additive identity.
pub open spec fn terms_wf<const N: usize>(s: Seq<([Degree; N], TropicalInt)>) -> bool {
    terms_unique(s) && terms_sorted(s)
}

/// Exponent vectors are distinct and no coefficient is the additive identity.
pub open spec fn terms_unique<const N: usize>(s: Seq<([Degree; N], TropicalInt)>) -> bool {
    &&& forall|k: int| 0 <= k < s.len() ==> (#[trigger] s[k]).1@ is Some
    &&& forall|j: int, k: int|
        0 <= j < s.len() && 0 <= k < s.len() && j != k ==> key((#[trigger] s[j]).0) != key(
            (#[trigger] s[k]).0,
        )
}

pub proof fn lemma_terms_map<const N: usize>(s: Seq<([Degree; N], TropicalInt)>)
    ensures
        terms_map(s).dom().finite(),
        has_dim(terms_map(s), N as nat),
        keys_fit(terms_map(s)),
        forall|e: Seq<int>|
            #[trigger] terms_map(s).contains_key(e) <==> exists|k: int|
                0 <= k < s.len() && key((#[trigger] s[k]).0) == e,
        terms_unique(s) ==> forall|k: int|
            0 <= k < s.len() ==> terms_map(s)[key((#[trigger] s[k]).0)] == coef(s[k].1),
    decreases s.len(),
{
    if s.len() > 0 {
        let t = s.drop_last();
        lemma_terms_map(t);
        let kl = key(s.last().0);
        assert(fits_i64(kl));
        assert forall|e: Seq<int>| #[trigger] terms_map(s).contains_key(e) <==> exists|k: int|
            0 <= k < s.len() && key((#[trigger] s[k]).0) == e by {
            if terms_map(s).contains_key(e) && e != key(s.last().0) {
                let k = choose|k: int| 0 <= k < t.len() && key((#[trigger] t[k]).0) == e;
                assert(s[k] == t[k]);
            }
            if exists|k: int| 0 <= k < s.len() && key((#[trigger] s[k]).0) == e {
                let k = choose|k: int| 0 <= k < s.len() && key((#[trigger] s[k]).0) == e;
                if k < s.len() - 1 {
                    assert(s[k] == t[k]);
                }
            }
        }
        if terms_unique(s) {
            assert(terms_unique(t)) by {
                assert forall|j: int, k: int|
                    0 <= j < t.len() && 0 <= k < t.len() && j != k implies key(
                        (#[trigger] t[j]).0,
                    ) != key((#[trigger] t[k]).0) by {
                    assert(s[j] == t[j] && s[k] == t[k]);
                }
                assert forall|k: int| 0 <= k < t.len() implies (#[trigger] t[k]).1@ is Some by {
                    assert(s[k] == t[k]);
                }
            }
            assert forall|k: int| 0 <= k < s.len() implies terms_map(s)[key(
                (#[trigger] s[k]).0,
            )] == coef(s[k].1) by {
                if k < s.len() - 1 {
                    assert(s[k] == t[k]);
                    assert(key(s[k].0) != key(s[s.len() - 1].0));
                }
            }
        }
    }
}

pub proof fn lemma_terms_map_take<const N: usize>(s: Seq<([Degree; N], TropicalInt)>, i: int)
    requires
        0 <= i < s.len(),
        terms_unique(s),
    ensures
        terms_map(s.take(i + 1)) == terms_map(s.take(i)).insert(key(s[i].0), coef(s[i].1)),
        !terms_map(s.take(i)).contains_key(key(s[i].0)),
        terms_map(s).contains_key(key(s[i].0)),
        terms_map(s)[key(s[i].0)] == coef(s[i].1),
        terms_map(s.take(i)).dom().subset_of(terms_map(s).dom()),
{
    assert(s.take(i + 1).drop_last() =~= s.take(i));
    lemma_terms_map(s.take(i));
    lemma_terms_map(s);
    if terms_map(s.take(i)).contains_key(key(s[i].0)) {
        let k = choose|k: int| 0 <= k < i && key((#[trigger] s.take(i)[k]).0) == key(s[i].0);
        assert(s.take(i)[k] == s[k]);
    }
    assert forall|e: Seq<int>| terms_map(s.take(i)).contains_key(e) implies terms_map(
        s,
    ).contains_key(e) by {
        let k = choose|k: int| 0 <= k < i && key((#[trigger] s.take(i)[k]).0) == e;
        assert(s.take(i)[k] == s[k]);
    }
}

/// Two lists with the same exponents and coefficients denote the same map.
pub proof fn lemma_terms_map_congruent<const N: usize>(
    s: Seq<([Degree; N], TropicalInt)>,
    t: Seq<([Degree; N], TropicalInt)>,
)
    requires
        s.len() == t.len(),
        forall|k: int| 0 <= k < s.len() ==> key((#[trigger] s[k]).0) == key(t[k].0) && s[k].1@ == t[k].1@,
    ensures
        terms_map(s) == terms_map(t),
    decreases s.len(),
{
    if s.len() > 0 {
        let s1 = s.drop_last();
        let t1 = t.drop_last();
        assert forall|k: int| 0 <= k < s1.len() implies key((#[trigger] s1[k]).0) == key(t1[k].0)
            && s1[k].1@ == t1[k].1@ by {
            assert(s1[k] == s[k] && t1[k] == t[k]);
        }
        lemma_terms_map_congruent(s1, t1);
        assert(key(s.last().0) == key(t.last().0));
    }
}

/// Compares two exponent vectors: zero when equal, negative when `a` comes
/// first, positive when `b` does.
fn compare_exponents<const N: usize>(a: &[Degree; N], b: &[Degree; N]) -> (r: i8)
    ensures
        r == 0 ==> key(*a) == key(*b),
        r < 0 ==> lex_lt(key(*a), key(*b)),
        r > 0 ==> lex_lt(key(*b), key(*a)),
{
    let mut i: usize = 0;
    while i < N
        invariant
            i <= N,
            forall|j: int| 0 <= j < i ==> a@[j] == b@[j],
        decreases N - i,
    {
        if a[i] != b[i] {
            proof {
                assert(forall|j: int| 0 <= j < i ==> #[trigger] key(*a)[j] == key(*b)[j]);
            }
            if a[i] < b[i] {
                proof {
                    let k = i as int;
                    assert(0 <= k < key(*a).len() && k < key(*b).len() && key(*a)[k] < key(*b)[k]
                        && forall|j: int| 0 <= j < k ==> #[trigger] key(*a)[j] == key(*b)[j]);
                }
                return -1;
            } else {
                proof {
                    let k = i as int;
                    assert(forall|j: int| 0 <= j < k ==> #[trigger] key(*b)[j] == key(*a)[j]);
                    assert(0 <= k < key(*b).len() && k < key(*a).len() && key(*b)[k] < key(*a)[k]
                        && forall|j: int| 0 <= j < k ==> #[trigger] key(*b)[j] == key(*a)[j]);
                }
                return 1;
            }
        }
        i += 1;
    }
    assert(key(*a) =~= key(*b));
    0
}

/// Where exponent vector `e` stands in a well-formed list (`Ok`), or where
/// it would be inserted to keep the order (`Err`).
fn locate<const N: usize>(
    terms: &Vec<([Degree; N], TropicalInt)>,
    e: &[Degree; N],
) -> (r: Result<usize, usize>)
    requires
        terms_wf(terms@),
    ensures
        match r {
            Ok(k) => k < terms@.len() && key(terms@[k as int].0) == key(*e),
            Err(p) => p <= terms@.len()
                && (forall|j: int| 0 <= j < p ==> lex_lt(key((#[trigger] terms@[j]).0), key(*e)))
                && (forall|j: int| p <= j < terms@.len() ==> lex_lt(key(*e), key((#[trigger] terms@[j]).0))),
        },
{
    let mut lo: usize = 0;
    let mut hi: usize = terms.len();
    while lo < hi
        invariant
            lo <= hi <= terms@.len(),
            terms_wf(terms@),
            forall|j: int| 0 <= j < lo ==> lex_lt(key((#[trigger] terms@[j]).0), key(*e)),
            forall|j: int| hi <= j < terms@.len() ==> lex_lt(key(*e), key((#[trigger] terms@[j]).0)),
        decreases hi - lo,
    {
        let mid = lo + (hi - lo) / 2;
        let c = compare_exponents(&terms[mid].0, e);
        if c == 0 {
            return Ok(mid);
        }
        if c < 0 {
            proof {
                assert forall|j: int| 0 <= j < mid + 1 implies lex_lt(key((#[trigger] terms@[j]).0), key(*e)) by {
                    if j < mid {
                        lemma_lex_lt(key(terms@[j].0), key(terms@[mid as int].0), key(*e));
                    }
                }
            }
            lo = mid + 1;
        } else {
            proof {
                assert forall|j: int| mid <= j < terms@.len() implies lex_lt(key(*e), key((#[trigger] terms@[j]).0)) by {
                    if j > mid {
                        lemma_lex_lt(key(*e), key(terms@[mid as int].0), key(terms@[j].0));
                    }
                }
            }
            hi = mid;
        }
    }
    Err(lo)
}

/// Offers a term to a well-formed list, by the max-dominance rule.
fn insert_term<const N: usize>(
    terms: &mut Vec<([Degree; N], TropicalInt)>,
    e: [Degree; N],
    c: TropicalInt,
)
    requires
        terms_wf(old(terms)@),
    ensures
        terms_wf(final(terms)@),
        terms_map(final(terms)@) == add_term_spec(terms_map(old(terms)@), key(e), c@),
{
    proof {
        lemma_terms_map(terms@);
    }
    if c.is_additive_identity() {
        return;
    }
    match locate(terms, &e) {
        Ok(k) => {
            let keep_old = c.plus(&terms[k].1).equals(&c);
            if keep_old {
                let ghost old_terms = terms@;
                terms.set(k, (e, c));
                proof {
                    assert forall|j: int, l: int| 0 <= j < l < terms@.len() implies lex_lt(key((#[trigger] terms@[j]).0), key((#[trigger] terms@[l]).0)) by {
                        assert(key(old_terms[j].0) == key(terms@[j].0));
                        assert(key(old_terms[l].0) == key(terms@[l].0));
                    }
                    assert forall|j: int, l: int| 0 <= j < terms@.len() && 0 <= l < terms@.len() && j != l implies key((#[trigger] terms@[j]).0) != key((#[trigger] terms@[l]).0) by {
                        assert(key(old_terms[j].0) == key(terms@[j].0));
                        assert(key(old_terms[l].0) == key(terms@[l].0));
                    }
                    lemma_terms_map(terms@);
                    assert forall|x: Seq<int>| #[trigger] terms_map(terms@).contains_key(x) <==> terms_map(old_terms).contains_key(x) by {
                        if terms_map(terms@).contains_key(x) {
                            let j = choose|j: int| 0 <= j < terms@.len() && key((#[trigger] terms@[j]).0) == x;
                            assert(key(old_terms[j].0) == x);
                        }
                        if terms_map(old_terms).contains_key(x) {
                            let j = choose|j: int| 0 <= j < old_terms.len() && key((#[trigger] old_terms[j]).0) == x;
                            assert(key(terms@[j].0) == x);
                        }
                    }
                    assert forall|x: Seq<int>| #[trigger] terms_map(terms@).contains_key(x) implies terms_map(terms@)[x] == terms_map(old_terms).insert(key(e), coef(c))[x] by {
                        let j = choose|j: int| 0 <= j < terms@.len() && key((#[trigger] terms@[j]).0) == x;
                        assert(key(old_terms[j].0) == x);
                    }
                    assert(terms_map(terms@) =~= add_term_spec(terms_map(old_terms), key(e), c@));
                }
            }
        },
        Err(p) => {
            let ghost old_terms = terms@;
            terms.insert(p, (e, c));
            proof {
                let t = (e, c);
                assert forall|j: int| 0 <= j < terms@.len() implies #[trigger] terms@[j] == if j < p {
                    old_terms[j]
                } else if j == p {
                    t
                } else {
                    old_terms[j - 1]
                } by {}
                assert forall|j: int, l: int| 0 <= j < l < terms@.len() implies lex_lt(key((#[trigger] terms@[j]).0), key((#[trigger] terms@[l]).0)) by {
                    if j < p && l > p {
                        lemma_lex_lt(key(old_terms[j].0), key(e), key(old_terms[l - 1].0));
                    }
                }
                assert forall|j: int, l: int| 0 <= j < terms@.len() && 0 <= l < terms@.len() && j != l implies key((#[trigger] terms@[j]).0) != key((#[trigger] terms@[l]).0) by {
                    if j < l {
                        lemma_lex_lt(key(terms@[j].0), key(terms@[l].0), key(terms@[l].0));
                    } else {
                        lemma_lex_lt(key(terms@[l].0), key(terms@[j].0), key(terms@[j].0));
                    }
                }
                lemma_terms_map(terms@);
                assert forall|x: Seq<int>| #[trigger] terms_map(terms@).contains_key(x) <==> terms_map(old_terms).insert(key(e), coef(c)).contains_key(x) by {
                    if terms_map(terms@).contains_key(x) && x != key(e) {
                        let j = choose|j: int| 0 <= j < terms@.len() && key((#[trigger] terms@[j]).0) == x;
                        if j < p {
                            assert(key(old_terms[j].0) == x);
                        } else {
                            assert(key(old_terms[j - 1].0) == x);
                        }
                    }
                    if terms_map(old_terms).contains_key(x) {
                        let j = choose|j: int| 0 <= j < old_terms.len() && key((#[trigger] old_terms[j]).0) == x;
                        if j < p {
                            assert(key(terms@[j].0) == x);
                        } else {
                            assert(key(terms@[j + 1].0) == x);
                        }
                    }
                    if x == key(e) {
                        assert(key(terms@[p as int].0) == x);
                    }
                }
                assert forall|x: Seq<int>| #[trigger] terms_map(terms@).contains_key(x) implies terms_map(terms@)[x] == terms_map(old_terms).insert(key(e), coef(c))[x] by {
                    let j = choose|j: int| 0 <= j < terms@.len() && key((#[trigger] terms@[j]).0) == x;
                    if j < p {
                        assert(key(old_terms[j].0) == x);
                        lemma_lex_lt(x, key(e), key(e));
                    } else if j > p {
                        assert(key(old_terms[j - 1].0) == x);
                        lemma_lex_lt(x, key(e), key(e));
                    }
                }
                assert(terms_map(terms@) =~= terms_map(old_terms).insert(key(e), coef(c)));
            }
        },
    }
}

/// The component-wise sum of two exponent vectors, or `None` where a
/// component does not fit in a `Degree`.
fn add_exponents<const N: usize>(a: &[Degree; N], b: &[Degree; N]) -> (r: Option<[Degree; N]>)
    ensures
        match r {
            Some(x) => fits_i64(seq_add(key(*a), key(*b))) && key(x) == seq_add(key(*a), key(*b)),
            None => !fits_i64(seq_add(key(*a), key(*b))),
        },
{
    let mut r = *a;
    let mut i: usize = 0;
    while i < N
        invariant
            i <= N,
            forall|j: int| 0 <= j < i ==> r@[j] as int == a@[j] + b@[j],
        decreases N - i,
    {
        let sum: i128 = a[i] as i128 + b[i] as i128;
        if sum < i64::MIN as i128 || sum > i64::MAX as i128 {
            proof {
                assert(seq_add(key(*a), key(*b))[i as int] == sum);
            }
            return None;
        }
        r[i] = sum as i64;
        i += 1;
    }
    assert(key(r) =~= seq_add(key(*a), key(*b)));
    Some(r)
}

/// The map obtained by offering the listed terms one after the other.
pub open spec fn offered<const N: usize>(s: Seq<([Degree; N], TropicalInt)>) -> TermMap
    decreases s.len(),
{
    if s.len() == 0 {
        Map::empty()
    } else {
        add_term_spec(offered(s.drop_last()), key(s.last().0), s.last().1@)
    }
}

/// Term by term: an exponent vector carries a term exactly when some entry
/// offers it an integer, and its coefficient is the largest integer offered.
pub proof fn lemma_offered_pointwise<const N: usize>(s: Seq<([Degree; N], TropicalInt)>)
    ensures
        forall|k: int|
            0 <= k < s.len() && (#[trigger] s[k]).1@ is Some ==> offered(s).contains_key(key(s[k].0))
                && s[k].1@->0 <= offered(s)[key(s[k].0)],
        forall|e: Seq<int>|
            #[trigger] offered(s).contains_key(e) ==> exists|k: int|
                0 <= k < s.len() && key((#[trigger] s[k]).0) == e && s[k].1@ == Some(offered(s)[e]),
    decreases s.len(),
{
    if s.len() > 0 {
        let t = s.drop_last();
        lemma_offered_pointwise(t);
        let l = s.len() - 1;
        assert forall|k: int|
            0 <= k < s.len() && (#[trigger] s[k]).1@ is Some implies offered(s).contains_key(key(s[k].0))
                && s[k].1@->0 <= offered(s)[key(s[k].0)] by {
            if k < l {
                assert(s[k] == t[k]);
            }
        }
        assert forall|e: Seq<int>| #[trigger] offered(s).contains_key(e) implies exists|k: int|
            0 <= k < s.len() && key((#[trigger] s[k]).0) == e && s[k].1@ == Some(offered(s)[e]) by {
            if offered(t).contains_key(e) && offered(s)[e] == offered(t)[e] {
                let k = choose|k: int|
                    0 <= k < t.len() && key((#[trigger] t[k]).0) == e && t[k].1@ == Some(offered(t)[e]);
                assert(s[k] == t[k]);
            } else {
                assert(key(s[l].0) == e && s[l].1@ == Some(offered(s)[e]));
            }
        }
    }
}

/// Construction from a list of terms does not depend on the order of the
/// list, nor on repeated entries: two lists offering the same entries give
/// the same polynomial.
pub proof fn lemma_offered_order_free<const N: usize>(
    s: Seq<([Degree; N], TropicalInt)>,
    t: Seq<([Degree; N], TropicalInt)>,
)
    requires
        forall|k: int| 0 <= k < s.len() ==> exists|j: int|
            0 <= j < t.len() && key((#[trigger] s[k]).0) == key((#[trigger] t[j]).0) && s[k].1@ == t[j].1@,
        forall|j: int| 0 <= j < t.len() ==> exists|k: int|
            0 <= k < s.len() && key((#[trigger] s[k]).0) == key((#[trigger] t[j]).0) && s[k].1@ == t[j].1@,
    ensures
        offered(s) == offered(t),
{
    lemma_offered_pointwise(s);
    lemma_offered_pointwise(t);
    assert forall|e: Seq<int>| offered(s).contains_key(e) implies offered(t).contains_key(e)
        && offered(t)[e] >= offered(s)[e] by {
        let k = choose|k: int|
            0 <= k < s.len() && key((#[trigger] s[k]).0) == e && s[k].1@ == Some(offered(s)[e]);
        let j = choose|j: int|
            0 <= j < t.len() && key((#[trigger] s[k]).0) == key((#[trigger] t[j]).0) && s[k].1@ == t[j].1@;
        assert(t[j].1@ is Some);
    }
    assert forall|e: Seq<int>| offered(t).contains_key(e) implies offered(s).contains_key(e)
        && offered(s)[e] >= offered(t)[e] by {
        let j = choose|j: int|
            0 <= j < t.len() && key((#[trigger] t[j]).0) == e && t[j].1@ == Some(offered(t)[e]);
        let k = choose|k: int|
            0 <= k < s.len() && key((#[trigger] s[k]).0) == key((#[trigger] t[j]).0) && s[k].1@ == t[j].1@;
        assert(s[k].1@ is Some);
    }
    assert(offered(s) =~= offered(t));
}

/// The name of variable `j` among `n`: `x`, `y`, `z`, or `x0`, `x1`, ...
/// beyond three variables.
pub open spec fn var_name(n: nat, j: int) -> Seq<char> {
    if n > 3 {
        "x"@ + decimal(j)
    } else if j == 0 {
        "x"@
    } else if j == 1 {
        "y"@
    } else {
        "z"@
    }
}

/// Each of the first `j` variables followed by `^` and its exponent.
pub open spec fn powers_text(e: Seq<int>, n: nat, j: int) -> Seq<char>
    decreases j,
{
    if j <= 0 {
        Seq::empty()
    } else {
        powers_text(e, n, j - 1) + var_name(n, j - 1) + "^"@ + decimal(e[j - 1])
    }
}

/// The text of the term `c x^e`.
pub open spec fn term_text(e: Seq<int>, c: int, n: nat) -> Seq<char> {
    decimal(c) + powers_text(e, n, n as int)
}

/// The terms of `p` at `keys`, in that order, joined with ` + `.
pub open spec fn listed_text(p: TermMap, keys: Seq<Seq<int>>, n: nat) -> Seq<char> {
    join(Seq::new(keys.len(), |i: int| term_text(keys[i], p[keys[i]], n)), " + "@)
}

/// `t` lists every term of `p`, the greatest exponent vector first.
pub open spec fn is_poly_text(p: TermMap, n: nat, t: Seq<char>) -> bool {
    exists|keys: Seq<Seq<int>>|
        {
            &&& forall|i: int, j: int| 0 <= i < j < keys.len() ==> lex_lt(#[trigger] keys[j], #[trigger] keys[i])
            &&& forall|e: Seq<int>| #[trigger] p.contains_key(e) <==> keys.contains(e)
            &&& t == listed_text(p, keys, n)
        }
}

/// A sparse polynomial in `N` variables over the tropical semiring.
#[derive(Debug)]
pub struct TropicalPolynomial<const N: usize> {
    terms: Vec<([Degree; N], TropicalInt)>,
}

impl<const N: usize> View for TropicalPolynomial<N> {
    type V = TermMap;

    closed spec fn view(&self) -> TermMap {
        terms_map(self.terms@)
    }
}

impl<const N: usize> TropicalPolynomial<N> {
    #[verifier::type_invariant]
    closed spec fn wf(self) -> bool {
        terms_wf(self.terms@)
    }

    /// The view is a finite map whose exponent vectors have length `N`.
    pub proof fn lemma_view(&self)
        ensures
            self@.dom().finite(),
            has_dim(self@, N as nat),
            keys_fit(self@),
    {
        lemma_terms_map(self.terms@);
    }

    /// The polynomial without terms, the additive identity.
    pub fn new() -> (r: Self)
        ensures
            r@ == Map::<Seq<int>, int>::empty(),
    {
        TropicalPolynomial { terms: Vec::new() }
    }

    /// Offers `coefficient` for `multi_degree`: it is stored unless a larger
    /// one is there already; an equal one overwrites.
    pub fn add_term(&mut self, multi_degree: [Degree; N], coefficient: TropicalInt)
        ensures
            final(self)@ == add_term_spec(old(self)@, key(multi_degree), coefficient@),
    {
        proof {
            use_type_invariant(&*self);
        }
        let mut terms = Vec::new();
        std::mem::swap(&mut terms, &mut self.terms);
        insert_term(&mut terms, multi_degree, coefficient);
        self.terms = terms;
    }

    /// The coefficient stored for `multi_degree`, if any.
    pub fn get_term(&self, multi_degree: &[Degree; N]) -> (r: Option<&TropicalInt>)
        ensures
            match r {
                Some(c) => self@.contains_key(key(*multi_degree)) && c@ == Some(self@[key(*multi_degree)]),
                None => !self@.contains_key(key(*multi_degree)),
            },
    {
        proof {
            use_type_invariant(self);
            lemma_terms_map(self.terms@);
        }
        match locate(&self.terms, multi_degree) {
            Ok(k) => {
                proof {
                    assert(self.terms@[k as int].1@ is Some);
                }
                Some(&self.terms[k].1)
            },
            Err(_) => {
                proof {
                    assert forall|j: int| 0 <= j < self.terms@.len() implies key((#[trigger] self.terms@[j]).0) != key(*multi_degree) by {
                        lemma_lex_lt(key(*multi_degree), key(*multi_degree), key(*multi_degree));
                    }
                }
                None
            },
        }
    }
}


impl<const N: usize> Clone for TropicalPolynomial<N> {
    fn clone(&self) -> (r: Self)
        ensures
            r@ == self@,
    {
        proof {
            use_type_invariant(self);
        }
        let mut terms: Vec<([Degree; N], TropicalInt)> = Vec::new();
        let mut k: usize = 0;
        while k < self.terms.len()
            invariant
                k <= self.terms@.len(),
                terms@.len() == k,
                forall|j: int|
                    0 <= j < k ==> key((#[trigger] terms@[j]).0) == key(self.terms@[j].0)
                        && terms@[j].1@ == self.terms@[j].1@,
            decreases self.terms@.len() - k,
        {
            let t = &self.terms[k];
            terms.push((t.0, t.1.clone()));
            k += 1;
        }
        proof {
            lemma_terms_map_congruent(terms@, self.terms@);
            assert forall|j: int, l: int|
                0 <= j < terms@.len() && 0 <= l < terms@.len() && j != l implies key(
                    (#[trigger] terms@[j]).0,
                ) != key((#[trigger] terms@[l]).0) by {
                assert(key(self.terms@[j].0) != key(self.terms@[l].0));
            }
            assert forall|j: int| 0 <= j < terms@.len() implies (#[trigger] terms@[j]).1@ is Some by {
                assert(self.terms@[j].1@ is Some);
            }
            assert forall|j: int, l: int| 0 <= j < l < terms@.len() implies lex_lt(key((#[trigger] terms@[j]).0), key((#[trigger] terms@[l]).0)) by {
                assert(lex_lt(key(self.terms@[j].0), key(self.terms@[l].0)));
            }
        }
        TropicalPolynomial { terms }
    }
}

impl<const N: usize> TropicalPolynomial<N> {
    /// Folds a list of terms by the max-dominance rule of `add_term`.
    pub fn from_terms(terms: Vec<([Degree; N], TropicalInt)>) -> (r: Self)
        ensures
            r@ == offered(terms@),
            forall|k: int|
                0 <= k < terms@.len() && (#[trigger] terms@[k]).1@ is Some ==> r@.contains_key(key(terms@[k].0))
                    && terms@[k].1@->0 <= r@[key(terms@[k].0)],
            forall|e: Seq<int>|
                #[trigger] r@.contains_key(e) ==> exists|k: int|
                    0 <= k < terms@.len() && key((#[trigger] terms@[k]).0) == e && terms@[k].1@ == Some(r@[e]),
    {
        proof {
            lemma_offered_pointwise(terms@);
        }
        let mut acc: Vec<([Degree; N], TropicalInt)> = Vec::new();
        let mut k: usize = 0;
        while k < terms.len()
            invariant
                k <= terms@.len(),
                terms_wf(acc@),
                terms_map(acc@) == offered(terms@.take(k as int)),
            decreases terms@.len() - k,
        {
            proof {
                assert(terms@.take(k + 1).drop_last() =~= terms@.take(k as int));
            }
            insert_term(&mut acc, terms[k].0, terms[k].1.clone());
            k += 1;
        }
        proof {
            assert(terms@.take(k as int) =~= terms@);
        }
        TropicalPolynomial { terms: acc }
    }

    /// The single term `coefficient x^multi_degree`; no term at all when the
    /// coefficient is the additive identity.
    pub fn monomial(multi_degree: [Degree; N], coefficient: TropicalInt) -> (r: Self)
        ensures
            r@ == monomial_map(key(multi_degree), coefficient@),
    {
        let mut terms: Vec<([Degree; N], TropicalInt)> = Vec::new();
        insert_term(&mut terms, multi_degree, coefficient);
        proof {
            assert(add_term_spec(Map::empty(), key(multi_degree), coefficient@) =~= monomial_map(
                key(multi_degree),
                coefficient@,
            ));
        }
        TropicalPolynomial { terms }
    }

    /// The variable of index `index`, with coefficient zero (an index out of
    /// range gives the constant zero).
    pub fn variable(index: usize) -> (r: Self)
        ensures
            r@ == single(unit(N as nat, index as int), 0),
    {
        let mut e: [Degree; N] = [0; N];
        if index < N {
            e[index] = 1;
        }
        proof {
            assert(key(e) =~= unit(N as nat, index as int));
        }
        Self::monomial(e, TropicalInt::zero())
    }

    /// The constant polynomial; no term when `constant` is the additive identity.
    pub fn constant(constant: TropicalInt) -> (r: Self)
        ensures
            r@ == monomial_map(zeros(N as nat), constant@),
    {
        let e: [Degree; N] = [0; N];
        proof {
            assert(key(e) =~= zeros(N as nat));
        }
        Self::monomial(e, constant)
    }

    /// The polynomial without terms.
    pub fn additive_identity() -> (r: Self)
        ensures
            r@ == Map::<Seq<int>, int>::empty(),
    {
        Self::constant(TropicalInt::AdditiveIdentity)
    }

    /// The constant with integer coefficient zero.
    pub fn multiplicative_identity() -> (r: Self)
        ensures
            r@ == one(N as nat),
    {
        Self::constant(TropicalInt::from_i64(0))
    }

    /// Tropical sum: at each exponent the larger coefficient.
    pub fn plus(&self, rhs: &Self) -> (r: Self)
        ensures
            r@ == poly_add(self@, rhs@),
    {
        proof {
            use_type_invariant(self);
            use_type_invariant(rhs);
        }
        let mut acc = self.clone();
        proof {
            use_type_invariant(&acc);
        }
        let mut terms: Vec<([Degree; N], TropicalInt)> = Vec::new();
        std::mem::swap(&mut terms, &mut acc.terms);
        let mut k: usize = 0;
        proof {
            lemma_add_empty(self@);
        }
        while k < rhs.terms.len()
            invariant
                k <= rhs.terms@.len(),
                terms_wf(rhs.terms@),
                terms_wf(terms@),
                terms_map(terms@) == poly_add(self@, terms_map(rhs.terms@.take(k as int))),
            decreases rhs.terms@.len() - k,
        {
            proof {
                lemma_terms_map_take(rhs.terms@, k as int);
                let m = terms_map(rhs.terms@.take(k as int));
                let t = rhs.terms@[k as int];
                lemma_add_term_is_add(poly_add(self@, m), key(t.0), coef(t.1));
                lemma_add_assoc(self@, m, single(key(t.0), coef(t.1)));
                lemma_add_new_key(m, key(t.0), coef(t.1));
            }
            insert_term(&mut terms, rhs.terms[k].0, rhs.terms[k].1.clone());
            k += 1;
        }
        proof {
            assert(rhs.terms@.take(k as int) =~= rhs.terms@);
        }
        TropicalPolynomial { terms }
    }

    /// Tropical product: every pair of terms contributes the sum of their
    /// exponents with the sum of their coefficients, contributions to one
    /// exponent combined by the maximum.
    pub fn times(&self, rhs: &Self) -> (r: Self)
        requires
            mul_fits(self@, rhs@),
        ensures
            r@ == poly_mul(self@, rhs@),
            forall|a: Seq<int>, b: Seq<int>|
                self@.contains_key(a) && rhs@.contains_key(b) ==> #[trigger] r@.contains_key(seq_add(a, b))
                    && self@[a] + rhs@[b] <= r@[seq_add(a, b)],
            forall|e: Seq<int>|
                #[trigger] r@.contains_key(e) ==> exists|a: Seq<int>, b: Seq<int>|
                    self@.contains_key(a) && rhs@.contains_key(b) && e == seq_add(a, b) && r@[e] == self@[a]
                        + rhs@[b],
    {
        proof {
            self.lemma_view();
            rhs.lemma_view();
            lemma_mul_pointwise(self@, rhs@, N as nat);
        }
        match self.checked_times(rhs) {
            Some(r) => r,
            None => {
                proof {
                    assert(false);
                }
                Self::new()
            },
        }
    }

    /// The tropical product as `times` computes it, or `None` exactly when
    /// some sum of exponents does not fit in a `Degree`.
    pub fn checked_times(&self, rhs: &Self) -> (r: Option<Self>)
        ensures
            match r {
                Some(x) => mul_fits(self@, rhs@) && x@ == poly_mul(self@, rhs@),
                None => !mul_fits(self@, rhs@),
            },
    {
        proof {
            use_type_invariant(self);
            use_type_invariant(rhs);
            lemma_terms_map(self.terms@);
            lemma_terms_map(rhs.terms@);
        }
        let ghost p = self@;
        let ghost q = rhs@;
        let ghost h = mul_summand(p, q);
        let mut acc: Vec<([Degree; N], TropicalInt)> = Vec::new();
        let mut i: usize = 0;
        proof {
            assert(terms_map(self.terms@.take(0)).dom() =~= Set::empty());
            lemma_sum_empty(h);
        }
        while i < self.terms.len()
            invariant
                i <= self.terms@.len(),
                p == self@,
                q == rhs@,
                h == mul_summand(p, q),
                has_dim(q, N as nat),
                forall|x: Seq<int>, y: Seq<int>|
                    terms_map(self.terms@.take(i as int)).contains_key(x) && q.contains_key(y)
                        ==> #[trigger] fits_i64(seq_add(x, y)),
                terms_wf(self.terms@),
                terms_wf(rhs.terms@),
                terms_wf(acc@),
                terms_map(acc@) == sum_over(terms_map(self.terms@.take(i as int)).dom(), h),
            decreases self.terms@.len() - i,
        {
            let a = &self.terms[i].0;
            let c = &self.terms[i].1;
            let ghost s_i = terms_map(self.terms@.take(i as int)).dom();
            let ghost ka = key(*a);
            let ghost ca = coef(*c);
            proof {
                lemma_terms_map_take(self.terms@, i as int);
                lemma_terms_map(self.terms@.take(i as int));
                lemma_shift_empty(ka, ca);
                lemma_add_empty(sum_over(s_i, h));
                assert(terms_map(rhs.terms@.take(0)) =~= Map::empty());
            }
            let mut j: usize = 0;
            while j < rhs.terms.len()
                invariant
                    i < self.terms@.len(),
                    j <= rhs.terms@.len(),
                    ka == key(*a),
                    ca == coef(*c),
                    c@ == Some(ca),
                    p == self@,
                    p.contains_key(ka),
                    q == rhs@,
                    forall|y: Seq<int>|
                        terms_map(rhs.terms@.take(j as int)).contains_key(y) ==> #[trigger] fits_i64(seq_add(ka, y)),
                    has_dim(q, N as nat),
                    terms_wf(rhs.terms@),
                    terms_wf(acc@),
                    terms_map(acc@) == poly_add(
                        sum_over(s_i, h),
                        shift(terms_map(rhs.terms@.take(j as int)), ka, ca),
                    ),
                decreases rhs.terms@.len() - j,
            {
                let b = &rhs.terms[j].0;
                let d = &rhs.terms[j].1;
                proof {
                    lemma_terms_map_take(rhs.terms@, j as int);
                    lemma_terms_map(rhs.terms@.take(j as int));
                    let m = terms_map(rhs.terms@.take(j as int));
                    let kb = key(*b);
                    lemma_shift_insert(m, ka, ca, kb, coef(*d));
                    let y = shift(m, ka, ca);
                    lemma_add_term_is_add(poly_add(sum_over(s_i, h), y), seq_add(ka, kb), coef(*d) + ca);
                    lemma_add_assoc(sum_over(s_i, h), y, single(seq_add(ka, kb), coef(*d) + ca));
                    lemma_add_new_key(y, seq_add(ka, kb), coef(*d) + ca);
                    assert(rhs.terms@[j as int].1@ is Some);
                }
                let e = match add_exponents(a, b) {
                    Some(e) => e,
                    None => {
                        proof {
                            if mul_fits(p, q) {
                                assert(fits_i64(seq_add(ka, key(*b))));
                            }
                        }
                        return None;
                    },
                };
                proof {
                    assert(terms_map(rhs.terms@.take(j + 1)).dom() =~= terms_map(rhs.terms@.take(j as int)).dom().insert(key(*b)));
                }
                let v = c.times(d);
                insert_term(&mut acc, e, v);
                j += 1;
            }
            proof {
                assert(rhs.terms@.take(j as int) =~= rhs.terms@);
                assert(terms_map(self.terms@.take(i + 1)).dom() =~= s_i.insert(ka));
                assert forall|x: Seq<int>, y: Seq<int>|
                    terms_map(self.terms@.take(i + 1)).contains_key(x) && q.contains_key(y)
                        implies #[trigger] fits_i64(seq_add(x, y)) by {
                    if x != ka {
                        assert(s_i.contains(x));
                    }
                }
                lemma_sum_insert(s_i, h, ka);
            }
            i += 1;
        }
        proof {
            assert(self.terms@.take(i as int) =~= self.terms@);
        }
        Some(TropicalPolynomial { terms: acc })
    }

    /// `self` multiplied `power` times onto the multiplicative identity: the
    /// identity for `power <= 0`, even for the polynomial without terms.
    pub fn pow(&self, power: Degree) -> (r: Self)
        requires
            pow_fits(self@, N as nat, power as int),
        ensures
            r@ == poly_pow(self@, N as nat, power as int),
            power == 0 ==> r@ == one(N as nat),
    {
        match self.checked_pow(power) {
            Some(r) => r,
            None => {
                proof {
                    assert(false);
                }
                Self::new()
            },
        }
    }

    /// The power as `pow` computes it, or `None` exactly when an exponent of
    /// some intermediate product does not fit in a `Degree`.
    pub fn checked_pow(&self, power: Degree) -> (r: Option<Self>)
        ensures
            match r {
                Some(x) => pow_fits(self@, N as nat, power as int) && x@ == poly_pow(self@, N as nat, power as int),
                None => !pow_fits(self@, N as nat, power as int),
            },
    {
        let mut acc = Self::multiplicative_identity();
        if power <= 0 {
            return Some(acc);
        }
        let mut k: Degree = 0;
        while k < power
            invariant
                0 <= k <= power,
                acc@ == poly_pow(self@, N as nat, k as int),
                pow_fits(self@, N as nat, k as int),
            decreases power - k,
        {
            acc = match acc.checked_times(self) {
                Some(next) => next,
                None => {
                    proof {
                        assert(!pow_fits(self@, N as nat, power as int)) by {
                            if pow_fits(self@, N as nat, power as int) {
                                assert(mul_fits(poly_pow(self@, N as nat, k as int), self@));
                            }
                        }
                    }
                    return None;
                },
            };
            proof {
                assert forall|j: int| 0 <= j < k + 1 implies mul_fits(#[trigger] poly_pow(self@, N as nat, j), self@) by {
                    if j < k {
                        assert(mul_fits(poly_pow(self@, N as nat, j), self@));
                    }
                }
            }
            k += 1;
        }
        Some(acc)
    }

    /// The value at a point: the maximum over the terms of the coefficient
    /// times each variable raised to its exponent.
    pub fn evaluate(&self, variables: [TropicalInt; N]) -> (r: TropicalInt)
        ensures
            r@ == poly_eval(self@, point_view(variables)),
            forall|e: Seq<int>| #[trigger] self@.contains_key(e) ==> tmax(
                r@,
                term_value(point_view(variables), e, self@[e]),
            ) == r@,
            r@ is None || exists|e: Seq<int>|
                self@.contains_key(e) && r@ == term_value(point_view(variables), e, self@[e]),
    {
        proof {
            use_type_invariant(self);
            lemma_terms_map(self.terms@);
            lemma_eval_empty(self@, point_view(variables));
            assert(terms_map(self.terms@.take(0)).dom() =~= Set::empty());
        }
        let ghost pt = point_view(variables);
        let mut acc = TropicalInt::AdditiveIdentity;
        let mut k: usize = 0;
        while k < self.terms.len()
            invariant
                k <= self.terms@.len(),
                terms_wf(self.terms@),
                pt == point_view(variables),
                acc@ == terms_map(self.terms@.take(k as int)).dom().fold(None, eval_step(self@, pt)),
            decreases self.terms@.len() - k,
        {
            let e = &self.terms[k].0;
            let mut term = TropicalInt::zero();
            let mut i: usize = 0;
            while i < N
                invariant
                    i <= N,
                    pt == point_view(variables),
                    term@ == point_power(pt, key(*e), i as int),
                decreases N - i,
            {
                let f = variables[i].pow(e[i]);
                term = term.times(&f);
                i += 1;
            }
            let value = self.terms[k].1.times(&term);
            proof {
                lemma_terms_map_take(self.terms@, k as int);
                lemma_terms_map(self.terms@.take(k as int));
                assert(self.terms@[k as int].1@ is Some);
                lemma_eval_insert(self@, pt, terms_map(self.terms@.take(k as int)).dom(), key(*e));
                assert(terms_map(self.terms@.take(k + 1)).dom() =~= terms_map(self.terms@.take(k as int)).dom().insert(key(*e)));
            }
            acc = acc.plus(&value);
            k += 1;
        }
        proof {
            assert(self.terms@.take(k as int) =~= self.terms@);
            lemma_eval_is_max(self@, pt, self@.dom());
        }
        acc
    }

    /// Substitutes the numerator of `images[i]` for the `i`-th variable and
    /// expands: the sum over the terms `c x^e` of `c` times the product of the
    /// numerators raised to the exponents (denominators play no part).
    pub fn substitute(&self, images: &Vec<TropicalRational<N>>) -> (r: Self)
        requires
            images@.len() == N,
            apply_fits(numerators(images@), N as nat, self@),
        ensures
            r@ == poly_apply(numerators(images@), N as nat, self@),
    {
        match self.checked_substitute(images) {
            Some(r) => r,
            None => {
                proof {
                    assert(false);
                }
                Self::new()
            },
        }
    }

    /// The substitution as `substitute` computes it, or `None` exactly when an
    /// exponent of some intermediate product does not fit in a `Degree`.
    pub fn checked_substitute(&self, images: &Vec<TropicalRational<N>>) -> (r: Option<Self>)
        requires
            images@.len() == N,
        ensures
            match r {
                Some(x) => apply_fits(numerators(images@), N as nat, self@) && x@ == poly_apply(
                    numerators(images@),
                    N as nat,
                    self@,
                ),
                None => !apply_fits(numerators(images@), N as nat, self@),
            },
    {
        proof {
            use_type_invariant(self);
            lemma_terms_map(self.terms@);
            assert(terms_map(self.terms@.take(0)).dom() =~= Set::empty());
        }
        let ghost nums = numerators(images@);
        let ghost h = apply_summand(nums, N as nat, self@);
        proof {
            lemma_sum_empty(h);
        }
        let mut acc = Self::new();
        let mut k: usize = 0;
        while k < self.terms.len()
            invariant
                k <= self.terms@.len(),
                images@.len() == N,
                nums == numerators(images@),
                h == apply_summand(nums, N as nat, self@),
                forall|x: Seq<int>, i: int|
                    terms_map(self.terms@.take(k as int)).contains_key(x) && 0 <= i < N
                        ==> #[trigger] factor_fits(nums, N as nat, x, i),
                terms_wf(self.terms@),
                acc@ == sum_over(terms_map(self.terms@.take(k as int)).dom(), h),
            decreases self.terms@.len() - k,
        {
            let e = &self.terms[k].0;
            proof {
                lemma_terms_map_take(self.terms@, k as int);
                lemma_terms_map(self.terms@.take(k as int));
            }
            let mut prod = Self::multiplicative_identity();
            let mut i: usize = 0;
            while i < N
                invariant
                    i <= N,
                    images@.len() == N,
                    nums == numerators(images@),
                    self@.contains_key(key(*e)),
                    forall|l: int| 0 <= l < i ==> #[trigger] factor_fits(nums, N as nat, key(*e), l),
                    prod@ == monoprod(nums, N as nat, key(*e), i as int),
                decreases N - i,
            {
                proof {
                    assert(key(*e)[i as int] == e@[i as int] as int);
                    assert(images@[i as int]@.0 == nums[i as int]);
                }
                let factor = match images[i].numerator().checked_pow(e[i]) {
                    Some(f) => f,
                    None => {
                        proof {
                            assert(!factor_fits(nums, N as nat, key(*e), i as int));
                            if apply_fits(nums, N as nat, self@) {
                                assert(factor_fits(nums, N as nat, key(*e), i as int));
                            }
                        }
                        return None;
                    },
                };
                prod = match prod.checked_times(&factor) {
                    Some(next) => next,
                    None => {
                        proof {
                            assert(!factor_fits(nums, N as nat, key(*e), i as int));
                            if apply_fits(nums, N as nat, self@) {
                                assert(factor_fits(nums, N as nat, key(*e), i as int));
                            }
                        }
                        return None;
                    },
                };
                proof {
                    assert(factor_fits(nums, N as nat, key(*e), i as int));
                }
                i += 1;
            }
            let c = self.terms[k].1.clone();
            let constant = Self::constant(c);
            proof {
                assert(self.terms@[k as int].1@ is Some);
                prod.lemma_view();
                lemma_mul_constant_left(N as nat, coef(self.terms@[k as int].1), prod@);
            }
            let term = constant.times(&prod);
            proof {
                assert(terms_map(self.terms@.take(k + 1)).dom() =~= terms_map(self.terms@.take(k as int)).dom().insert(key(*e)));
                lemma_sum_insert(terms_map(self.terms@.take(k as int)).dom(), h, key(*e));
                assert forall|x: Seq<int>, l: int|
                    terms_map(self.terms@.take(k + 1)).contains_key(x) && 0 <= l < N
                        implies #[trigger] factor_fits(nums, N as nat, x, l) by {
                    if x != key(*e) {
                        assert(terms_map(self.terms@.take(k as int)).contains_key(x));
                    }
                }
            }
            acc = acc.plus(&term);
            k += 1;
        }
        proof {
            assert(self.terms@.take(k as int) =~= self.terms@);
        }
        Some(acc)
    }

    /// The exponent vectors of the stored terms, each once.
    pub fn exponents(&self) -> (r: Vec<[Degree; N]>)
        ensures
            forall|k: int| 0 <= k < r@.len() ==> self@.contains_key(key(#[trigger] r@[k])),
            forall|e: Seq<int>| #[trigger] self@.contains_key(e) ==> exists|k: int| 0 <= k < r@.len() && key(#[trigger] r@[k]) == e,
            forall|j: int, k: int| 0 <= j < r@.len() && 0 <= k < r@.len() && j != k ==> key(#[trigger] r@[j]) != key(#[trigger] r@[k]),
    {
        proof {
            use_type_invariant(self);
            lemma_terms_map(self.terms@);
        }
        let mut r: Vec<[Degree; N]> = Vec::new();
        let mut k: usize = 0;
        while k < self.terms.len()
            invariant
                k <= self.terms@.len(),
                r@.len() == k,
                terms_wf(self.terms@),
                forall|j: int| 0 <= j < k ==> (#[trigger] r@[j]) == self.terms@[j].0,
            decreases self.terms@.len() - k,
        {
            r.push(self.terms[k].0);
            k += 1;
        }
        proof {
            assert forall|e: Seq<int>| #[trigger] self@.contains_key(e) implies exists|k: int| 0 <= k < r@.len() && key(#[trigger] r@[k]) == e by {
                let k = choose|k: int| 0 <= k < self.terms@.len() && key((#[trigger] self.terms@[k]).0) == e;
                assert(r@[k] == self.terms@[k].0);
            }
            assert forall|k: int| 0 <= k < r@.len() implies self@.contains_key(key(#[trigger] r@[k])) by {
                assert(r@[k] == self.terms@[k].0);
            }
            assert forall|j: int, k: int| 0 <= j < r@.len() && 0 <= k < r@.len() && j != k implies key(#[trigger] r@[j]) != key(#[trigger] r@[k]) by {
                assert(r@[j] == self.terms@[j].0);
                assert(r@[k] == self.terms@[k].0);
            }
        }
        r
    }

    /// Multiplying by the polynomial without terms gives the polynomial without terms.
    pub proof fn lemma_times_additive_identity(&self)
        ensures
            mul_fits(self@, Map::empty()),
            mul_fits(Map::empty(), self@),
            poly_mul(self@, Map::empty()) == Map::<Seq<int>, int>::empty(),
            poly_mul(Map::empty(), self@) == Map::<Seq<int>, int>::empty(),
    {
        lemma_terms_map(self.terms@);
        lemma_mul_empty(self@);
    }

    /// The terms, greatest exponent vector first, each as its coefficient
    /// followed by every variable with `^` and its exponent, joined with ` + `.
    pub fn to_text(&self) -> (r: String)
        ensures
            is_poly_text(self@, N as nat, r@),
    {
        proof {
            use_type_invariant(self);
            lemma_terms_map(self.terms@);
        }
        let len = self.terms.len();
        let ghost keys = Seq::new(len as nat, |i: int| key(self.terms@[len - 1 - i].0));
        let ghost texts = Seq::new(len as nat, |i: int| term_text(keys[i], self@[keys[i]], N as nat));
        let mut out = String::new();
        let mut i: usize = 0;
        while i < len
            invariant
                i <= len,
                len == self.terms@.len(),
                terms_wf(self.terms@),
                keys == Seq::new(len as nat, |i: int| key(self.terms@[len - 1 - i].0)),
                texts == Seq::new(len as nat, |i: int| term_text(keys[i], self@[keys[i]], N as nat)),
                out@ == join(texts.take(i as int), " + "@),
            decreases len - i,
        {
            let ghost before = out@;
            if i > 0 {
                out.append(" + ");
            }
            let ghost start = out@;
            let t = &self.terms[len - 1 - i];
            let c = t.1.to_text();
            out.append(c.as_str());
            let mut j: usize = 0;
            while j < N
                invariant
                    j <= N,
                    out@ == start + scalar_text(t.1@) + powers_text(key(t.0), N as nat, j as int),
                decreases N - j,
            {
                if N > 3 {
                    out.append("x");
                    let name = index_text(j);
                    out.append(name.as_str());
                } else if j == 0 {
                    out.append("x");
                } else if j == 1 {
                    out.append("y");
                } else {
                    out.append("z");
                }
                out.append("^");
                let d = degree_text(t.0[j]);
                out.append(d.as_str());
                proof {
                    assert(key(t.0)[j as int] == t.0@[j as int] as int);
                    assert(out@ =~= start + scalar_text(t.1@) + powers_text(key(t.0), N as nat, j + 1));
                }
                j += 1;
            }
            proof {
                let k = len - 1 - i;
                lemma_terms_map(self.terms@);
                assert(self.terms@[k].1@ is Some);
                assert(self@[key(self.terms@[k].0)] == coef(self.terms@[k].1));
                assert(texts[i as int] == term_text(key(t.0), coef(t.1), N as nat));
                lemma_join_push(texts, " + "@, i as int);
                assert(out@ =~= join(texts.take(i + 1), " + "@));
            }
            i += 1;
        }
        proof {
            assert(texts.take(len as int) =~= texts);
            assert forall|a: int, b: int| 0 <= a < b < keys.len() implies lex_lt(#[trigger] keys[b], #[trigger] keys[a]) by {
                assert(lex_lt(key(self.terms@[len - 1 - b].0), key(self.terms@[len - 1 - a].0)));
            }
            assert forall|e: Seq<int>| #[trigger] self@.contains_key(e) <==> keys.contains(e) by {
                if self@.contains_key(e) {
                    let k = choose|k: int| 0 <= k < self.terms@.len() && key((#[trigger] self.terms@[k]).0) == e;
                    assert(keys[len - 1 - k] == e);
                }
                if keys.contains(e) {
                    let a = choose|a: int| 0 <= a < keys.len() && keys[a] == e;
                    assert(key(self.terms@[len - 1 - a].0) == e);
                }
            }
            assert(texts =~= Seq::new(keys.len(), |i: int| term_text(keys[i], self@[keys[i]], N as nat)));
            assert(out@ == listed_text(self@, keys, N as nat));
            assert(is_poly_text(self@, N as nat, out@));
        }
        out
    }

    /// Every term of `self` stands in `other` with the same coefficient.
    fn included_in(&self, other: &Self) -> (r: bool)
        ensures
            r == forall|e: Seq<int>| #[trigger] self@.contains_key(e) ==> other@.contains_key(e) && other@[e] == self@[e],
    {
        proof {
            use_type_invariant(self);
            lemma_terms_map(self.terms@);
        }
        let mut k: usize = 0;
        while k < self.terms.len()
            invariant
                k <= self.terms@.len(),
                terms_wf(self.terms@),
                forall|j: int| 0 <= j < k ==> other@.contains_key(#[trigger] key(self.terms@[j].0)) && other@[key(self.terms@[j].0)] == self@[key(self.terms@[j].0)],
            decreases self.terms@.len() - k,
        {
            proof {
                lemma_terms_map_take(self.terms@, k as int);
            }
            match other.get_term(&self.terms[k].0) {
                Some(c) => {
                    if !c.equals(&self.terms[k].1) {
                        return false;
                    }
                },
                None => {
                    return false;
                },
            }
            k += 1;
        }
        true
    }

    /// Structural equality of the term maps.
    pub fn equals(&self, other: &Self) -> (r: bool)
        ensures
            r == (self@ == other@),
    {
        let r = self.included_in(other) && other.included_in(self);
        proof {
            if r {
                assert(self@ =~= other@);
            }
        }
        r
    }
}

/// The values of the coordinates of a point.
pub open spec fn point_view<const N: usize>(variables: [TropicalInt; N]) -> Seq<Option<int>> {
    Seq::new(N as nat, |i: int| variables@[i]@)
}

impl<const N: usize> PartialEq for TropicalPolynomial<N> {
    fn eq(&self, other: &Self) -> (r: bool) {
        self.equals(other)
    }
}

impl<const N: usize> vstd::std_specs::cmp::PartialEqSpecImpl for TropicalPolynomial<N> {
    open spec fn obeys_eq_spec() -> bool {
        true
    }

    open spec fn eq_spec(&self, other: &Self) -> bool {
        self@ == other@
    }
}

impl<const N: usize> Eq for TropicalPolynomial<N> {}

// The operators forward to `plus` and `times`, which carry the contracts; a
// polynomial is a value up to the order of its stored terms, so the operator
// traits' structural specification is not claimed.
impl<const N: usize> vstd::std_specs::ops::AddSpecImpl for TropicalPolynomial<N> {
    open spec fn obeys_add_spec() -> bool {
        false
    }

    open spec fn add_req(self, rhs: Self) -> bool {
        true
    }

    open spec fn add_spec(self, rhs: Self) -> Self {
        vstd::pervasive::arbitrary()
    }
}

impl<const N: usize> vstd::std_specs::ops::MulSpecImpl for TropicalPolynomial<N> {
    open spec fn obeys_mul_spec() -> bool {
        false
    }

    open spec fn mul_req(self, rhs: Self) -> bool {
        mul_fits(self@, rhs@)
    }

    open spec fn mul_spec(self, rhs: Self) -> Self {
        vstd::pervasive::arbitrary()
    }
}

impl<const N: usize> core::ops::Add for TropicalPolynomial<N> {
    type Output = Self;

    fn add(self, rhs: Self) -> (r: Self)
        ensures
            r@ == poly_add(self@, rhs@),
    {
        self.plus(&rhs)
    }
}

impl<const N: usize> core::ops::AddAssign for TropicalPolynomial<N> {
    fn add_assign(&mut self, rhs: Self)
        ensures
            final(self)@ == poly_add(old(self)@, rhs@),
    {
        *self = self.plus(&rhs);
    }
}

impl<const N: usize> core::ops::Mul for TropicalPolynomial<N> {
    type Output = Self;

    fn mul(self, rhs: Self) -> (r: Self)
        ensures
            r@ == poly_mul(self@, rhs@),
    {
        self.times(&rhs)
    }
}

impl<const N: usize> core::ops::MulAssign for TropicalPolynomial<N> {
    fn mul_assign(&mut self, rhs: Self)
        requires
            mul_fits(old(self)@, rhs@),
        ensures
            final(self)@ == poly_mul(old(self)@, rhs@),
    {
        *self = self.times(&rhs);
    }
}

impl<const N: usize> vstd::std_specs::convert::FromSpecImpl<Vec<([Degree; N], TropicalInt)>> for TropicalPolynomial<N> {
    open spec fn obeys_from_spec() -> bool {
        false
    }

    open spec fn from_spec(terms: Vec<([Degree; N], TropicalInt)>) -> Self {
        vstd::pervasive::arbitrary()
    }
}

impl<const N: usize> From<Vec<([Degree; N], TropicalInt)>> for TropicalPolynomial<N> {
    fn from(terms: Vec<([Degree; N], TropicalInt)>) -> (r: Self)
        ensures
            r@ == offered(terms@),
    {
        Self::from_terms(terms)
    }
}

} // verus!
