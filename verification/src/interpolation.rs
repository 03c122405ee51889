//! Lagrange interpolation over a field.
//!
//! The polynomial through a set of points is the sum of one basis polynomial
//! for each point: `y_i` times the product, over the other points, of
//! `(x - x_j) / (x_i - x_j)`. In the result the coefficient of `x^d` is the
//! term of index `d`.

use crate::error::ZkError;
use crate::field::{is_inverse, lemma_inverse_unique, reduce, residue, FieldElement, FieldModel};
use crate::integer::{numbers, Integer};
use crate::number_theory::{coprime, divides, lemma_divides_combination, lemma_divides_multiple};
use crate::qap::{
    accumulated, coefficient_sum, fields_agree, leading_modulus, lemma_coefficient_sum_concat,
    lemma_mentions_concat, lemma_unmentioned_sum, mentions, polynomial_value, term_models,
    terms_fit, weighted_sum, Polynomial,
};
use vstd::arithmetic::div_mod::{
    lemma_add_mod_noop, lemma_add_mod_noop_right, lemma_fundamental_div_mod, lemma_mod_twice,
    lemma_mul_mod_noop_left, lemma_mul_mod_noop_right, lemma_small_mod,
};
use vstd::prelude::*;

verus! {

/// The coefficient of `x^d` in the polynomial of coefficients `p`, lowest
/// degree first.
pub open spec fn coefficient_at(p: Seq<int>, d: int) -> int {
    if 0 <= d < p.len() {
        p[d]
    } else {
        0
    }
}

/// The polynomial `p` times `(x - root)`, modulo `m`.
pub open spec fn times_linear(p: Seq<int>, root: int, m: int) -> Seq<int> {
    Seq::new(
        p.len() + 1,
        |d: int| (coefficient_at(p, d - 1) - root * coefficient_at(p, d)) % m,
    )
}

/// The polynomial `p` times the constant `c`, modulo `m`.
pub open spec fn scaled(p: Seq<int>, c: int, m: int) -> Seq<int> {
    Seq::new(p.len(), |d: int| (p[d] * c) % m)
}

/// `e` is a residue that inverts `a` modulo `m`.
pub open spec fn inverts(a: int, e: int, m: int) -> bool {
    0 <= e < m && (a * e) % m == 1int % m
}

/// The inverse of `a` modulo `m`, where `a` has one.
pub open spec fn inverse_of(a: int, m: int) -> int {
    choose|e: int| #[trigger] inverts(a, e, m)
}

/// What a run of points stands for: each point as a pair of elements.
pub open spec fn point_models(points: Seq<(FieldElement, FieldElement)>) -> Seq<
    (FieldModel, FieldModel),
> {
    points.map_values(|p: (FieldElement, FieldElement)| (p.0@, p.1@))
}

/// Both coordinates of every point lie in the field of modulus `m`.
pub open spec fn points_in_field(points: Seq<(FieldModel, FieldModel)>, m: int) -> bool {
    forall|i: int|
        0 <= i < points.len() ==> (#[trigger] points[i]).0.modulus == m && points[i].1.modulus
            == m
}

/// The difference of the abscissas of points `i` and `j`, as a residue.
pub open spec fn gap(points: Seq<(FieldModel, FieldModel)>, i: int, j: int, m: int) -> int {
    (points[i].0.value - points[j].0.value) % m
}

/// `a` has an inverse modulo `m`.
pub open spec fn invertible(a: int, m: int) -> bool {
    exists|e: int| #[trigger] inverts(a, e, m)
}

/// The abscissas of point `i` and of every other point among the first `n`
/// differ by an invertible element.
pub open spec fn apart_from(points: Seq<(FieldModel, FieldModel)>, i: int, n: int, m: int) -> bool {
    forall|j: int| 0 <= j < n && j != i ==> invertible(#[trigger] gap(points, i, j, m), m)
}

/// What has an inverse modulo `m` shares no factor with `m`.
pub proof fn lemma_invertible_coprime(a: int, m: int, e: int)
    requires
        m > 0,
        inverts(a, e, m),
    ensures
        coprime(a, m),
{
    lemma_fundamental_div_mod(a * e, m);
    lemma_fundamental_div_mod(1, m);
    let k = (a * e) / m - 1int / m;
    assert(1 == e * a + (-k) * m) by (nonlinear_arith)
        requires
            a * e == m * ((a * e) / m) + (a * e) % m,
            1 == m * (1int / m) + 1int % m,
            (a * e) % m == 1int % m,
            k == (a * e) / m - 1int / m,
    ;
    assert forall|d: int| #[trigger] divides(d, a) && divides(d, m) implies divides(d, 1) by {
        lemma_divides_combination(d, a, m, e, -k);
    }
    lemma_divides_multiple(1, a);
    lemma_divides_multiple(1, m);
    assert(a * 1 == a && m * 1 == m);
}

/// The abscissas of any two points differ by an invertible element. Two
/// points of one abscissa never do.
pub open spec fn abscissas_apart(points: Seq<(FieldModel, FieldModel)>, m: int) -> bool {
    forall|i: int|
        0 <= i < points.len() ==> #[trigger] apart_from(points, i, points.len() as int, m)
}

/// The basis polynomial of point `i` over the first `n` points: `y_i` times
/// the product of `(x - x_j) / (x_i - x_j)` over the points `j` below `n`
/// other than `i`.
pub open spec fn basis(points: Seq<(FieldModel, FieldModel)>, i: int, n: int, m: int) -> Seq<int>
    decreases n,
{
    if n <= 0 {
        seq![points[i].1.value]
    } else if n - 1 == i {
        basis(points, i, n - 1, m)
    } else {
        scaled(
            times_linear(basis(points, i, n - 1, m), points[n - 1].0.value, m),
            inverse_of(gap(points, i, n - 1, m), m),
            m,
        )
    }
}

/// A polynomial as terms: the coefficient of `x^d` under index `d`.
pub open spec fn degree_terms(p: Seq<int>, m: int) -> Seq<(usize, FieldModel)> {
    Seq::new(p.len(), |d: int| (d as usize, residue(p[d], m)))
}

/// The terms of the basis polynomials of the first `k` points, one
/// polynomial after the other.
pub open spec fn lagrange_terms(points: Seq<(FieldModel, FieldModel)>, k: int, m: int) -> Seq<
    (usize, FieldModel),
>
    decreases k,
{
    if k <= 0 {
        Seq::empty()
    } else {
        lagrange_terms(points, k - 1, m) + degree_terms(
            basis(points, k - 1, points.len() as int, m),
            m,
        )
    }
}

/// The polynomial through `points`: the sum of all basis polynomials, degree
/// by degree.
pub open spec fn interpolant(points: Seq<(FieldModel, FieldModel)>, m: int) -> Map<
    usize,
    FieldModel,
> {
    accumulated(Map::empty(), lagrange_terms(points, points.len() as int, m), m)
}

/// `p` times `(x - root)`, modulo the modulus.
fn multiply_by_linear(p: &Vec<Integer>, root: &Integer, modulus: &Integer) -> (r: Vec<Integer>)
    requires
        modulus@ > 0,
        p@.len() < usize::MAX,
    ensures
        r@.len() == p@.len() + 1,
        numbers(r@) == times_linear(numbers(p@), root@, modulus@),
{
    let n = p.len();
    let mut product: Vec<Integer> = Vec::new();
    let mut d: usize = 0;
    while d <= n
        invariant
            n == p@.len(),
            n < usize::MAX,
            modulus@ > 0,
            d <= n + 1,
            product@.len() == d,
            forall|k: int|
                0 <= k < d ==> (#[trigger] product@[k])@ == times_linear(
                    numbers(p@),
                    root@,
                    modulus@,
                )[k],
        decreases n + 1 - d,
    {
        let lower = if d > 0 {
            p[d - 1].clone()
        } else {
            Integer::zero()
        };
        let upper = if d < n {
            root.times(&p[d])
        } else {
            assert(root@ * 0 == 0);
            Integer::zero()
        };
        product.push(reduce(&lower.minus(&upper), modulus));
        d = d + 1;
    }
    assert(numbers(product@) =~= times_linear(numbers(p@), root@, modulus@));
    product
}

/// `p` times the constant `c`, modulo the modulus.
fn multiply_by_constant(p: &Vec<Integer>, c: &Integer, modulus: &Integer) -> (r: Vec<Integer>)
    requires
        modulus@ > 0,
    ensures
        r@.len() == p@.len(),
        numbers(r@) == scaled(numbers(p@), c@, modulus@),
{
    let n = p.len();
    let mut product: Vec<Integer> = Vec::new();
    let mut d: usize = 0;
    while d < n
        invariant
            n == p@.len(),
            d <= n,
            modulus@ > 0,
            product@.len() == d,
            forall|k: int|
                0 <= k < d ==> (#[trigger] product@[k])@ == scaled(numbers(p@), c@, modulus@)[k],
        decreases n - d,
    {
        product.push(reduce(&p[d].times(c), modulus));
        d = d + 1;
    }
    assert(numbers(product@) =~= scaled(numbers(p@), c@, modulus@));
    product
}

/// The basis polynomial of point `i`, or `NonInvertibleElement` where the
/// abscissa of another point is too near.
fn basis_polynomial(points: &[(FieldElement, FieldElement)], i: usize, modulus: &Integer) -> (r:
    Result<Vec<Integer>, ZkError>)
    requires
        i < points@.len(),
        points_in_field(point_models(points@), modulus@),
    ensures
        match r {
            Ok(p) => {
                &&& apart_from(point_models(points@), i as int, points@.len() as int, modulus@)
                &&& numbers(p@) == basis(
                    point_models(points@),
                    i as int,
                    points@.len() as int,
                    modulus@,
                )
                &&& p@.len() == points@.len()
            },
            Err(e) => e == ZkError::NonInvertibleElement && !apart_from(
                point_models(points@),
                i as int,
                points@.len() as int,
                modulus@,
            ),
        },
{
    let ghost pm = point_models(points@);
    let ghost m = modulus@;
    let n = points.len();
    let x_i = &points[i].0;
    let y_i = &points[i].1;
    proof {
        assert(pm[i as int] == (x_i@, y_i@));
    }
    proof {
        use_type_invariant(x_i);
    }
    let mut term: Vec<Integer> = Vec::new();
    term.push(y_i.get_value());
    assert(numbers(term@) =~= basis(pm, i as int, 0, m));
    let mut j: usize = 0;
    while j < n
        invariant
            n == points@.len(),
            i < n,
            j <= n,
            m == modulus@,
            m > 0,
            pm == point_models(points@),
            points_in_field(pm, m),
            pm[i as int] == (x_i@, y_i@),
            term@.len() == if j > i {
                j as int
            } else {
                j + 1
            },
            numbers(term@) == basis(pm, i as int, j as int, m),
            apart_from(pm, i as int, j as int, m),
        decreases n - j,
    {
        if j != i {
            let x_j = &points[j].0;
            assert(pm[j as int].0 == x_j@);
            let difference = match x_i.sub(x_j) {
                Ok(d) => d,
                Err(e) => {
                    return Err(e);
                },
            };
            proof {
                use_type_invariant(&difference);
            }
            assert(difference@.value == gap(pm, i as int, j as int, m));
            let denominator = match difference.inv() {
                Ok(d) => d,
                Err(e) => {
                    proof {
                        let a = gap(pm, i as int, j as int, m);
                        if invertible(a, m) {
                            let w = choose|w: int| #[trigger] inverts(a, w, m);
                            lemma_invertible_coprime(a, m, w);
                        }
                    }
                    return Err(e);
                },
            };
            proof {
                let e = inverse_of(difference@.value, m);
                assert(inverts(difference@.value, denominator@.value, m));
                assert(is_inverse(difference@, FieldModel { value: e, modulus: m }));
                lemma_inverse_unique(
                    difference@,
                    denominator@,
                    FieldModel { value: e, modulus: m },
                );
            }
            let raised = multiply_by_linear(&term, &x_j.get_value(), modulus);
            term = multiply_by_constant(&raised, &denominator.get_value(), modulus);
        }
        j = j + 1;
    }
    Ok(term)
}

impl Polynomial {
    /// The polynomial through `points`, in the field of modulus `modulus`:
    /// for every point, `y_i` times the product of `(x - x_j) / (x_i - x_j)`
    /// over the other points, all of them added up, with the coefficient of
    /// `x^d` as the term of index `d`. The abscissas must differ by
    /// invertible elements, so no two points may share one.
    pub fn interpolate(points: &[(FieldElement, FieldElement)], modulus: &Integer) -> (r: Result<
        Polynomial,
        ZkError,
    >)
        ensures
            match r {
                Ok(p) => {
                    &&& points_in_field(point_models(points@), modulus@)
                    &&& abscissas_apart(point_models(points@), modulus@)
                    &&& p@ == interpolant(point_models(points@), modulus@)
                },
                Err(e) => if points_in_field(point_models(points@), modulus@) {
                    e == ZkError::NonInvertibleElement && !abscissas_apart(
                        point_models(points@),
                        modulus@,
                    )
                } else {
                    e == ZkError::ModulusMismatch
                },
            },
    {
        let ghost pm = point_models(points@);
        let ghost m = modulus@;
        let n = points.len();
        let mut i: usize = 0;
        while i < n
            invariant
                n == points@.len(),
                i <= n,
                pm == point_models(points@),
                m == modulus@,
                points_in_field(pm.take(i as int), m),
            decreases n - i,
        {
            let point = &points[i];
            assert(pm[i as int] == (point.0@, point.1@));
            if !point.0.get_modulus().same_value(modulus) || !point.1.get_modulus().same_value(
                modulus,
            ) {
                return Err(ZkError::ModulusMismatch);
            }
            proof {
                let shorter = pm.take(i as int);
                let longer = pm.take(i + 1);
                assert forall|k: int| 0 <= k < longer.len() implies (#[trigger] longer[k]).0.modulus
                    == m && longer[k].1.modulus == m by {
                    if k < i {
                        assert(shorter[k] == longer[k]);
                    }
                }
            }
            i = i + 1;
        }
        assert(pm.take(n as int) =~= pm);
        let mut terms: Vec<(usize, FieldElement)> = Vec::new();
        let mut i: usize = 0;
        while i < n
            invariant
                n == points@.len(),
                i <= n,
                pm == point_models(points@),
                m == modulus@,
                points_in_field(pm, m),
                term_models(terms@) == lagrange_terms(pm, i as int, m),
                forall|k: int| 0 <= k < i ==> #[trigger] apart_from(pm, k, n as int, m),
            decreases n - i,
        {
            let polynomial = match basis_polynomial(points, i, modulus) {
                Ok(p) => p,
                Err(e) => {
                    return Err(e);
                },
            };
            let abscissa = &points[i].0;
            proof {
                use_type_invariant(abscissa);
            }
            assert(pm[i as int].0 == points@[i as int].0@);
            let ghost before = term_models(terms@);
            let ghost coefficients = numbers(polynomial@);
            let degree = polynomial.len();
            let mut d: usize = 0;
            while d < degree
                invariant
                    degree == polynomial@.len(),
                    d <= degree,
                    coefficients == numbers(polynomial@),
                    m == modulus@,
                    m > 0,
                    abscissa@.modulus == m,
                    term_models(terms@) == before + degree_terms(coefficients, m).take(d as int),
                decreases degree - d,
            {
                let coefficient = abscissa.of_same_field(&polynomial[d]);
                let ghost shorter = term_models(terms@);
                terms.push((d, coefficient));
                proof {
                    assert(term_models(terms@) =~= shorter.push((d, coefficient@)));
                    assert(degree_terms(coefficients, m).take(d + 1) =~= degree_terms(
                        coefficients,
                        m,
                    ).take(d as int).push((d, coefficient@)));
                    assert(term_models(terms@) =~= before + degree_terms(coefficients, m).take(
                        d + 1,
                    ));
                }
                d = d + 1;
            }
            assert(degree_terms(coefficients, m).take(degree as int) =~= degree_terms(
                coefficients,
                m,
            ));
            i = i + 1;
        }
        let mut result = Polynomial::new();
        proof {
            assert forall|j: int| 0 <= j < term_models(terms@).len() implies (
            #[trigger] term_models(terms@)[j]).1.modulus == m by {
                lemma_lagrange_terms_in_field(pm, n as int, m, j);
            }
            assert(terms_fit(result@, term_models(terms@), m));
        }
        match result.accumulate(terms.as_slice(), modulus) {
            Ok(_) => Ok(result),
            Err(e) => Err(e),
        }
    }
}

/// Every term of the basis polynomials lies in the field of modulus `m`.
proof fn lemma_lagrange_terms_in_field(
    points: Seq<(FieldModel, FieldModel)>,
    k: int,
    m: int,
    j: int,
)
    requires
        0 <= j < lagrange_terms(points, k, m).len(),
    ensures
        lagrange_terms(points, k, m)[j].1.modulus == m,
    decreases k,
{
    if k > 0 {
        let earlier = lagrange_terms(points, k - 1, m);
        if j < earlier.len() {
            lemma_lagrange_terms_in_field(points, k - 1, m, j);
        }
    }
}

/// The value at `x` of the polynomial of coefficients `p`, lowest degree
/// first.
pub open spec fn value_at(p: Seq<int>, x: int) -> int
    decreases p.len(),
{
    if p.len() == 0 {
        0
    } else {
        p[0] + x * value_at(p.drop_first(), x)
    }
}

/// Two polynomials whose coefficients agree modulo `m` have values that
/// agree modulo `m`.
proof fn lemma_value_congruent(a: Seq<int>, b: Seq<int>, x: int, m: int)
    requires
        m > 0,
        a.len() == b.len(),
        forall|d: int| 0 <= d < a.len() ==> #[trigger] a[d] % m == b[d] % m,
    ensures
        value_at(a, x) % m == value_at(b, x) % m,
    decreases a.len(),
{
    if a.len() > 0 {
        let ra = a.drop_first();
        let rb = b.drop_first();
        assert forall|d: int| 0 <= d < ra.len() implies #[trigger] ra[d] % m == rb[d] % m by {
            assert(a[d + 1] % m == b[d + 1] % m);
        }
        lemma_value_congruent(ra, rb, x, m);
        let va = value_at(ra, x);
        let vb = value_at(rb, x);
        lemma_mul_mod_noop_right(x, va, m);
        lemma_mul_mod_noop_right(x, vb, m);
        lemma_add_mod_noop(a[0], x * va, m);
        lemma_add_mod_noop(b[0], x * vb, m);
    }
}

/// Adding `c` to the constant term of a polynomial adds `c` to its values.
proof fn lemma_value_bump(p: Seq<int>, c: int, x: int)
    requires
        p.len() > 0,
    ensures
        value_at(p.update(0, p[0] + c), x) == value_at(p, x) + c,
{
    assert(p.update(0, p[0] + c).drop_first() =~= p.drop_first());
}

/// The polynomial `p` times `(x - root)`, over the integers.
pub open spec fn plain_times_linear(p: Seq<int>, root: int) -> Seq<int> {
    Seq::new(p.len() + 1, |d: int| coefficient_at(p, d - 1) - root * coefficient_at(p, d))
}

/// The polynomial `p` times the constant `c`, over the integers.
pub open spec fn plain_scaled(p: Seq<int>, c: int) -> Seq<int> {
    Seq::new(p.len(), |d: int| p[d] * c)
}

/// The value of `p` times `(x - root)` is the value of `p` times
/// `x - root`.
proof fn lemma_plain_times_linear(p: Seq<int>, root: int, x: int)
    ensures
        value_at(plain_times_linear(p, root), x) == (x - root) * value_at(p, x),
    decreases p.len(),
{
    let q = plain_times_linear(p, root);
    if p.len() == 0 {
        assert(q[0] == 0 - root * 0);
        assert(root * 0 == 0);
        assert(q.drop_first().len() == 0);
        assert(value_at(q.drop_first(), x) == 0);
        assert(value_at(q, x) == q[0] + x * value_at(q.drop_first(), x));
        assert(x * 0 == 0);
        assert(value_at(p, x) == 0);
        assert((x - root) * 0 == 0);
    } else {
        let rest = p.drop_first();
        let below = plain_times_linear(rest, root);
        lemma_plain_times_linear(rest, root, x);
        assert(q.drop_first() =~= below.update(0, below[0] + p[0])) by {
            assert forall|d: int| 0 <= d < q.drop_first().len() implies q.drop_first()[d]
                == below.update(0, below[0] + p[0])[d] by {
                assert(q.drop_first()[d] == q[d + 1]);
                if d > 0 {
                    assert(coefficient_at(rest, d - 1) == coefficient_at(p, d));
                    assert(coefficient_at(rest, d) == coefficient_at(p, d + 1));
                } else {
                    assert(coefficient_at(rest, 0) == coefficient_at(p, 1));
                }
            }
        }
        lemma_value_bump(below, p[0], x);
        let v = value_at(rest, x);
        assert(q[0] == 0 - root * p[0]);
        assert(value_at(q, x) == q[0] + x * value_at(q.drop_first(), x));
        assert(value_at(below, x) == (x - root) * v);
        assert(value_at(q.drop_first(), x) == (x - root) * v + p[0]);
        assert(value_at(q, x) == (x - root) * (p[0] + x * v)) by (nonlinear_arith)
            requires
                value_at(q, x) == (0 - root * p[0]) + x * ((x - root) * v + p[0]),
        ;
        assert(value_at(p, x) == p[0] + x * v);
    }
}

/// The value of `p` times `c` is the value of `p` times `c`.
proof fn lemma_plain_scaled(p: Seq<int>, c: int, x: int)
    ensures
        value_at(plain_scaled(p, c), x) == c * value_at(p, x),
    decreases p.len(),
{
    let q = plain_scaled(p, c);
    if p.len() == 0 {
        assert(c * 0 == 0);
    } else {
        let rest = p.drop_first();
        lemma_plain_scaled(rest, c, x);
        assert(q.drop_first() =~= plain_scaled(rest, c));
        let v = value_at(rest, x);
        assert(p[0] * c + x * (c * v) == c * (p[0] + x * v)) by (nonlinear_arith);
    }
}

/// Modulo `m`, the value of `p` times `(x - root)` is the value of `p`
/// times `x - root`.
proof fn lemma_times_linear_value(p: Seq<int>, root: int, x: int, m: int)
    requires
        m > 0,
    ensures
        value_at(times_linear(p, root, m), x) % m == ((x - root) * value_at(p, x)) % m,
{
    let reduced = times_linear(p, root, m);
    let plain = plain_times_linear(p, root);
    assert forall|d: int| 0 <= d < reduced.len() implies #[trigger] reduced[d] % m == plain[d]
        % m by {
        lemma_mod_twice(plain[d], m);
    }
    lemma_value_congruent(reduced, plain, x, m);
    lemma_plain_times_linear(p, root, x);
}

/// Modulo `m`, the value of `p` times `c` is the value of `p` times `c`.
proof fn lemma_scaled_value(p: Seq<int>, c: int, x: int, m: int)
    requires
        m > 0,
    ensures
        value_at(scaled(p, c, m), x) % m == (c * value_at(p, x)) % m,
{
    let reduced = scaled(p, c, m);
    let plain = plain_scaled(p, c);
    assert forall|d: int| 0 <= d < reduced.len() implies #[trigger] reduced[d] % m == plain[d]
        % m by {
        lemma_mod_twice(plain[d], m);
    }
    lemma_value_congruent(reduced, plain, x, m);
    lemma_plain_scaled(p, c, x);
}

/// The value at `x` of the basis polynomial of point `i` over the first `n`
/// points, as a product over the integers: `y_i` times, for each other
/// point `j`, `x - x_j` and the inverse of `x_i - x_j`.
pub open spec fn basis_value(
    points: Seq<(FieldModel, FieldModel)>,
    i: int,
    n: int,
    x: int,
    m: int,
) -> int
    decreases n,
{
    if n <= 0 {
        points[i].1.value
    } else if n - 1 == i {
        basis_value(points, i, n - 1, x, m)
    } else {
        basis_value(points, i, n - 1, x, m) * ((x - points[n - 1].0.value) * inverse_of(
            gap(points, i, n - 1, m),
            m,
        ))
    }
}

/// Modulo `m`, a product does not change when a factor is replaced by a
/// congruent one.
proof fn lemma_congruent_product(a: int, b: int, k: int, m: int)
    requires
        m > 0,
        a % m == b % m,
    ensures
        (k * a) % m == (k * b) % m,
        (a * k) % m == (b * k) % m,
{
    lemma_mul_mod_noop_right(k, a, m);
    lemma_mul_mod_noop_right(k, b, m);
    lemma_mul_mod_noop_left(a, k, m);
    lemma_mul_mod_noop_left(b, k, m);
}

/// Modulo `m`, the basis polynomial has the value of the product that
/// defines it.
proof fn lemma_basis_value(points: Seq<(FieldModel, FieldModel)>, i: int, n: int, x: int, m: int)
    requires
        m > 0,
    ensures
        value_at(basis(points, i, n, m), x) % m == basis_value(points, i, n, x, m) % m,
    decreases n,
{
    if n <= 0 {
        let b = basis(points, i, n, m);
        assert(b.drop_first().len() == 0);
        assert(value_at(b.drop_first(), x) == 0);
        assert(x * 0 == 0);
    } else if n - 1 == i {
        lemma_basis_value(points, i, n - 1, x, m);
    } else {
        let below = basis(points, i, n - 1, m);
        let root = points[n - 1].0.value;
        let c = inverse_of(gap(points, i, n - 1, m), m);
        let raised = times_linear(below, root, m);
        let v = value_at(below, x);
        let w = basis_value(points, i, n - 1, x, m);
        lemma_basis_value(points, i, n - 1, x, m);
        lemma_scaled_value(raised, c, x, m);
        lemma_times_linear_value(below, root, x, m);
        lemma_congruent_product(value_at(raised, x), (x - root) * v, c, m);
        lemma_congruent_product(v, w, x - root, m);
        lemma_congruent_product((x - root) * v, (x - root) * w, c, m);
        assert(c * ((x - root) * w) == w * ((x - root) * c)) by (nonlinear_arith);
    }
}

/// The basis polynomial of point `i` vanishes, modulo `m`, at the abscissa
/// of every other point.
proof fn lemma_basis_vanishes(points: Seq<(FieldModel, FieldModel)>, i: int, n: int, k: int, m: int)
    requires
        m > 0,
        0 <= k < n,
        k != i,
    ensures
        basis_value(points, i, n, points[k].0.value, m) % m == 0,
    decreases n,
{
    let x = points[k].0.value;
    if n - 1 == i {
        lemma_basis_vanishes(points, i, n - 1, k, m);
    } else {
        let w = basis_value(points, i, n - 1, x, m);
        let c = inverse_of(gap(points, i, n - 1, m), m);
        let f = (x - points[n - 1].0.value) * c;
        if n - 1 == k {
            assert(f == 0) by (nonlinear_arith)
                requires
                    f == (x - x) * c,
            ;
            assert(w * f == 0) by (nonlinear_arith)
                requires
                    f == 0,
            ;
            lemma_small_mod(0, m as nat);
        } else {
            lemma_basis_vanishes(points, i, n - 1, k, m);
            lemma_small_mod(0, m as nat);
            lemma_congruent_product(w, 0, f, m);
            assert(0 * f == 0);
        }
    }
}

/// The basis polynomial of point `i` has, modulo `m`, the value `y_i` at
/// the abscissa of point `i`.
proof fn lemma_basis_at_own(points: Seq<(FieldModel, FieldModel)>, i: int, n: int, m: int)
    requires
        m > 0,
        apart_from(points, i, n, m),
    ensures
        basis_value(points, i, n, points[i].0.value, m) % m == points[i].1.value % m,
    decreases n,
{
    let x = points[i].0.value;
    if n <= 0 {
    } else if n - 1 == i {
        lemma_basis_at_own(points, i, n - 1, m);
    } else {
        lemma_basis_at_own(points, i, n - 1, m);
        let w = basis_value(points, i, n - 1, x, m);
        let g = gap(points, i, n - 1, m);
        let c = inverse_of(g, m);
        let d = x - points[n - 1].0.value;
        assert(invertible(g, m));
        assert(inverts(g, c, m));
        lemma_mul_mod_noop_left(d, c, m);
        assert((d * c) % m == 1int % m);
        lemma_congruent_product(d * c, 1, w, m);
        assert(w * 1 == w);
    }
}

/// The basis polynomial of one of `n` points has `n` coefficients.
proof fn lemma_basis_len(points: Seq<(FieldModel, FieldModel)>, i: int, n: int, m: int)
    requires
        0 <= n,
    ensures
        basis(points, i, n, m).len() == if 0 <= i < n {
            n
        } else {
            n + 1
        },
    decreases n,
{
    if n > 0 {
        lemma_basis_len(points, i, n - 1, m);
    }
}

/// The terms of a polynomial give each degree its own coefficient.
proof fn lemma_degree_terms_sum(p: Seq<int>, m: int, d: int)
    requires
        p.len() <= usize::MAX,
        0 <= d < p.len(),
    ensures
        coefficient_sum(degree_terms(p, m), d as usize) == p[d] % m,
        mentions(degree_terms(p, m), d as usize),
    decreases p.len(),
{
    let terms = degree_terms(p, m);
    let front = p.drop_last();
    assert(terms.drop_last() =~= degree_terms(front, m));
    assert(terms[d].0 == d as usize);
    if d == p.len() - 1 {
        assert forall|j: int| 0 <= j < degree_terms(front, m).len() implies (
        #[trigger] degree_terms(front, m)[j]).0 != d as usize by {
        }
        lemma_unmentioned_sum(degree_terms(front, m), d as usize);
    } else {
        lemma_degree_terms_sum(front, m, d);
    }
}

/// What the basis polynomials of the first `k` points add up to in degree
/// `d`.
pub open spec fn column_total(points: Seq<(FieldModel, FieldModel)>, d: int, k: int, m: int) -> int
    decreases k,
{
    if k <= 0 {
        0
    } else {
        column_total(points, d, k - 1, m) + basis(points, k - 1, points.len() as int, m)[d] % m
    }
}

/// The terms of the first `k` basis polynomials give degree `d` the sum of
/// their coefficients of that degree.
proof fn lemma_lagrange_sum(points: Seq<(FieldModel, FieldModel)>, k: int, m: int, d: int)
    requires
        points.len() <= usize::MAX,
        0 <= k <= points.len(),
        0 <= d < points.len(),
    ensures
        coefficient_sum(lagrange_terms(points, k, m), d as usize) == column_total(points, d, k, m),
        k > 0 ==> mentions(lagrange_terms(points, k, m), d as usize),
    decreases k,
{
    if k > 0 {
        let n = points.len() as int;
        let earlier = lagrange_terms(points, k - 1, m);
        let polynomial = basis(points, k - 1, n, m);
        lemma_lagrange_sum(points, k - 1, m, d);
        lemma_basis_len(points, k - 1, n, m);
        lemma_degree_terms_sum(polynomial, m, d);
        lemma_coefficient_sum_concat(earlier, degree_terms(polynomial, m), d as usize);
        lemma_mentions_concat(earlier, degree_terms(polynomial, m), d as usize);
    }
}

/// The value of a sum of two polynomials is the sum of their values.
proof fn lemma_value_sum(a: Seq<int>, b: Seq<int>, x: int)
    requires
        a.len() == b.len(),
    ensures
        value_at(Seq::new(a.len(), |d: int| a[d] + b[d]), x) == value_at(a, x) + value_at(b, x),
    decreases a.len(),
{
    let sum = Seq::new(a.len(), |d: int| a[d] + b[d]);
    if a.len() > 0 {
        let ra = a.drop_first();
        let rb = b.drop_first();
        lemma_value_sum(ra, rb, x);
        assert(sum.drop_first() =~= Seq::new(ra.len(), |d: int| ra[d] + rb[d]));
        let va = value_at(ra, x);
        let vb = value_at(rb, x);
        assert(x * (va + vb) == x * va + x * vb) by (nonlinear_arith);
    }
}

/// The basis polynomial of point `i`, each coefficient as a residue.
pub open spec fn reduced_basis(points: Seq<(FieldModel, FieldModel)>, i: int, m: int) -> Seq<int> {
    Seq::new(points.len(), |d: int| basis(points, i, points.len() as int, m)[d] % m)
}

/// The column totals of the first `k` basis polynomials, as a polynomial.
pub open spec fn totals(points: Seq<(FieldModel, FieldModel)>, k: int, m: int) -> Seq<int> {
    Seq::new(points.len(), |d: int| column_total(points, d, k, m))
}

/// The polynomial of zero coefficients has the value zero.
proof fn lemma_value_zero(p: Seq<int>, x: int)
    requires
        forall|d: int| 0 <= d < p.len() ==> #[trigger] p[d] == 0,
    ensures
        value_at(p, x) == 0,
    decreases p.len(),
{
    if p.len() > 0 {
        lemma_value_zero(p.drop_first(), x);
        assert(x * 0 == 0);
    }
}

/// Modulo `m`, the sum of the first `k` basis polynomials takes at the
/// abscissa of point `j` the value `y_j` once the basis polynomial of that
/// point is among them, and zero before.
proof fn lemma_totals_value(points: Seq<(FieldModel, FieldModel)>, k: int, j: int, m: int)
    requires
        m > 0,
        0 <= k <= points.len(),
        0 <= j < points.len(),
        abscissas_apart(points, m),
    ensures
        value_at(totals(points, k, m), points[j].0.value) % m == if j < k {
            points[j].1.value % m
        } else {
            0
        },
    decreases k,
{
    let n = points.len() as int;
    let x = points[j].0.value;
    if k <= 0 {
        lemma_value_zero(totals(points, k, m), x);
        lemma_small_mod(0, m as nat);
    } else {
        let before = totals(points, k - 1, m);
        let added = reduced_basis(points, k - 1, m);
        let polynomial = basis(points, k - 1, n, m);
        lemma_totals_value(points, k - 1, j, m);
        lemma_value_sum(before, added, x);
        assert(totals(points, k, m) =~= Seq::new(before.len(), |d: int| before[d] + added[d]));
        lemma_basis_len(points, k - 1, n, m);
        assert forall|d: int| 0 <= d < added.len() implies #[trigger] added[d] % m
            == polynomial[d] % m by {
            lemma_mod_twice(polynomial[d], m);
        }
        lemma_value_congruent(added, polynomial, x, m);
        lemma_basis_value(points, k - 1, n, x, m);
        if j == k - 1 {
            assert(apart_from(points, j, n, m));
            lemma_basis_at_own(points, j, n, m);
        } else {
            lemma_basis_vanishes(points, k - 1, n, j, m);
        }
        lemma_add_mod_noop(value_at(before, x), value_at(added, x), m);
        lemma_small_mod(0, m as nat);
        lemma_mod_twice(points[j].1.value, m);
    }
}

/// The coefficients of a polynomial held as terms, lowest degree first.
pub open spec fn coefficients_of(p: Map<usize, FieldModel>, n: int) -> Seq<int> {
    Seq::new(n as nat, |d: int| p[d as usize].value)
}

/// The interpolant passes through the points: modulo `m`, its value at the
/// abscissa of a point is the ordinate of that point.
pub proof fn lemma_interpolant_through_points(
    points: Seq<(FieldModel, FieldModel)>,
    m: int,
    j: int,
)
    requires
        m > 0,
        points.len() <= usize::MAX,
        abscissas_apart(points, m),
        0 <= j < points.len(),
    ensures
        value_at(
            coefficients_of(interpolant(points, m), points.len() as int),
            points[j].0.value,
        ) % m == points[j].1.value % m,
{
    let n = points.len() as int;
    let x = points[j].0.value;
    let found = coefficients_of(interpolant(points, m), n);
    let expected = totals(points, n, m);
    assert forall|d: int| 0 <= d < found.len() implies #[trigger] found[d] % m == expected[d]
        % m by {
        lemma_lagrange_sum(points, n, m, d);
        lemma_mod_twice(expected[d], m);
    }
    lemma_value_congruent(found, expected, x, m);
    lemma_totals_value(points, n, j, m);
}

/// The residue of `x` to the power `d` modulo `m`, as `d` multiplications
/// in the field give it.
pub open spec fn power_residue(x: int, d: nat, m: int) -> int
    decreases d,
{
    if d == 0 {
        1int % m
    } else {
        (power_residue(x, (d - 1) as nat, m) * x) % m
    }
}

/// The powers `1, x, x^2, ...` of `x` below degree `n`, as elements of the
/// field of modulus `m`: the assignment on which a polynomial held as terms
/// takes its value at `x`.
pub open spec fn powers(x: int, n: int, m: int) -> Seq<FieldModel> {
    Seq::new(n as nat, |d: int| FieldModel { value: power_residue(x, d as nat, m), modulus: m })
}

/// The sum of `c[d]` times the residue of `x` to the power `d`, over the
/// degrees below `k`.
pub open spec fn power_sum(c: Seq<int>, x: int, m: int, k: int) -> int
    decreases k,
{
    if k <= 0 {
        0
    } else {
        power_sum(c, x, m, k - 1) + c[k - 1] * power_residue(x, (k - 1) as nat, m)
    }
}

/// Modulo `m`, the sum over the first `k` powers and the rest of the
/// polynomial, taken at `x` and raised by `k` degrees, make up its value.
proof fn lemma_power_sum_split(c: Seq<int>, x: int, m: int, k: int)
    requires
        m > 0,
        0 <= k <= c.len(),
    ensures
        (power_sum(c, x, m, k) + power_residue(x, k as nat, m) * value_at(c.skip(k), x)) % m
            == value_at(c, x) % m,
    decreases k,
{
    if k == 0 {
        assert(c.skip(0) =~= c);
        let v = value_at(c, x);
        lemma_mul_mod_noop_left(1, v, m);
        assert(1 * v == v);
    } else {
        lemma_power_sum_split(c, x, m, k - 1);
        let before = power_sum(c, x, m, k - 1);
        let lower = power_residue(x, (k - 1) as nat, m);
        let upper = power_residue(x, k as nat, m);
        let tail = value_at(c.skip(k), x);
        assert(c.skip(k - 1)[0] == c[k - 1]);
        assert(c.skip(k - 1).drop_first() =~= c.skip(k));
        assert(value_at(c.skip(k - 1), x) == c[k - 1] + x * tail);
        // upper is lower * x up to a multiple of m
        lemma_mul_mod_noop_left(lower * x, tail, m);
        assert(lower * (c[k - 1] + x * tail) == c[k - 1] * lower + (lower * x) * tail) by (
            nonlinear_arith);
        lemma_add_mod_noop_right(before + c[k - 1] * lower, (lower * x) * tail, m);
        lemma_add_mod_noop_right(before + c[k - 1] * lower, upper * tail, m);
    }
}

/// Modulo `m`, the sum over all powers is the value of the polynomial.
proof fn lemma_power_sum_value(c: Seq<int>, x: int, m: int)
    requires
        m > 0,
    ensures
        power_sum(c, x, m, c.len() as int) % m == value_at(c, x) % m,
{
    lemma_power_sum_split(c, x, m, c.len() as int);
    assert(c.skip(c.len() as int).len() == 0);
    assert(power_residue(x, c.len(), m) * 0 == 0);
}

/// On the powers of `x`, a polynomial that holds a term for every degree
/// below `n` sums to the sum over the powers.
proof fn lemma_weighted_power_sum(p: Map<usize, FieldModel>, x: int, m: int, n: int, k: int)
    requires
        0 <= k <= n <= usize::MAX,
        forall|d: usize| d < n ==> #[trigger] p.contains_key(d),
    ensures
        weighted_sum(p, powers(x, n, m), k) == power_sum(coefficients_of(p, n), x, m, k),
    decreases k,
{
    if k > 0 {
        lemma_weighted_power_sum(p, x, m, n, k - 1);
        assert(p.contains_key((k - 1) as usize));
    }
}

/// The interpolant takes the ordinate of each point at its abscissa: on the
/// powers of `x_j`, its value as a linear form is the element `y_j`.
pub proof fn lemma_interpolant_on_powers(points: Seq<(FieldModel, FieldModel)>, m: int, j: int)
    requires
        m > 0,
        points.len() <= usize::MAX,
        abscissas_apart(points, m),
        0 <= j < points.len(),
    ensures
        fields_agree(
            interpolant(points, m),
            powers(points[j].0.value, points.len() as int, m),
            points.len() as int,
        ),
        polynomial_value(
            interpolant(points, m),
            powers(points[j].0.value, points.len() as int, m),
        ) == residue(points[j].1.value, m),
{
    let n = points.len() as int;
    let x = points[j].0.value;
    let p = interpolant(points, m);
    assert forall|d: usize| d < n implies #[trigger] p.contains_key(d) && p[d].modulus == m by {
        lemma_lagrange_sum(points, n, m, d as int);
    }
    assert(p.contains_key((n - 1) as usize));
    lemma_leading_modulus(p, n, m);
    lemma_weighted_power_sum(p, x, m, n, n);
    lemma_power_sum_value(coefficients_of(p, n), x, m);
    lemma_interpolant_through_points(points, m, j);
}

/// Where a linear form holds a term for the highest index below `n`, its
/// leading modulus there is the modulus of that term.
proof fn lemma_leading_modulus(p: Map<usize, FieldModel>, n: int, m: int)
    requires
        0 < n <= usize::MAX,
        p.contains_key((n - 1) as usize),
        p[(n - 1) as usize].modulus == m,
    ensures
        leading_modulus(p, n) == m,
{
}

} // verus!
