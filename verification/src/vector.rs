//! Embedding vectors and the exact cosine-similarity order. Components
//! are fixed-point integers; a vector is accepted only when its squared
//! norm is positive and small enough that similarity scores can be
//! compared exactly in machine integers, by cross-multiplying the
//! squared cosine ratios instead of dividing.

use vstd::prelude::*;

verus! {

/// The largest squared norm a vector may have. Keeping every stored
/// vector under this bound lets the exact score comparison stay inside
/// 128-bit integers.
pub const NORM_LIMIT: u64 = 2147483648;

/// The integer views of a component vector.
pub open spec fn int_view(cs: Seq<i64>) -> Seq<int> {
    cs.map_values(|c: i64| c as int)
}

/// The dot product of two equal-length integer sequences.
pub open spec fn dot_s(a: Seq<int>, b: Seq<int>) -> int
    decreases a.len(),
{
    if a.len() == 0 || b.len() == 0 {
        0
    } else {
        dot_s(a.drop_last(), b.drop_last()) + a.last() * b.last()
    }
}

/// The squared norm of an integer sequence.
pub open spec fn norm_s(a: Seq<int>) -> int {
    dot_s(a, a)
}

/// A squared norm is never negative.
pub proof fn lemma_norm_nonneg(a: Seq<int>)
    ensures
        norm_s(a) >= 0,
    decreases a.len(),
{
    if a.len() > 0 {
        assert(a.drop_last().len() == a.len() - 1);
        lemma_norm_nonneg(a.drop_last());
        assert(a.last() * a.last() >= 0) by (nonlinear_arith);
    }
}

/// A prefix never has a larger squared norm than the whole.
pub proof fn lemma_norm_take_le(a: Seq<int>, i: int)
    requires
        0 <= i <= a.len(),
    ensures
        norm_s(a.take(i)) <= norm_s(a),
    decreases a.len() - i,
{
    if i == a.len() {
        assert(a.take(i) =~= a);
    } else {
        lemma_norm_take_le(a, i + 1);
        let t = a.take(i + 1);
        assert(t.drop_last() =~= a.take(i));
        assert(t.last() == a[i]);
        assert(norm_s(t) == norm_s(a.take(i)) + a[i] * a[i]);
        assert(a[i] * a[i] >= 0) by (nonlinear_arith);
    }
}

/// Every component's square is at most the squared norm.
pub proof fn lemma_component_sq_le_norm(a: Seq<int>, i: int)
    requires
        0 <= i < a.len(),
    ensures
        a[i] * a[i] <= norm_s(a),
    decreases a.len(),
{
    if i == a.len() - 1 {
        lemma_norm_nonneg(a.drop_last());
        assert(a.last() == a[i]);
    } else {
        lemma_component_sq_le_norm(a.drop_last(), i);
        assert(a.drop_last()[i] == a[i]);
        assert(a.last() * a.last() >= 0) by (nonlinear_arith);
    }
}

/// The Cauchy-Schwarz inequality: the square of a dot product is at most
/// the product of the squared norms.
pub proof fn lemma_cauchy_schwarz(a: Seq<int>, b: Seq<int>)
    requires
        a.len() == b.len(),
    ensures
        dot_s(a, b) * dot_s(a, b) <= norm_s(a) * norm_s(b),
    decreases a.len(),
{
    if a.len() == 0 {
    } else {
        let a0 = a.drop_last();
        let b0 = b.drop_last();
        let d = dot_s(a0, b0);
        let x = a.last();
        let y = b.last();
        let nx = norm_s(a0);
        let ny = norm_s(b0);
        lemma_cauchy_schwarz(a0, b0);
        lemma_norm_nonneg(a0);
        lemma_norm_nonneg(b0);
        assert(dot_s(a, b) == d + x * y);
        assert(norm_s(a) == nx + x * x);
        assert(norm_s(b) == ny + y * y);
        assert((nx * (y * y) + ny * (x * x)) * (nx * (y * y) + ny * (x * x)) >= 4 * (nx * ny) * (
        x * x) * (y * y)) by (nonlinear_arith);
        assert(4 * (d * d) * (x * x) * (y * y) <= 4 * (nx * ny) * (x * x) * (y * y))
            by (nonlinear_arith)
            requires
                d * d <= nx * ny,
        ;
        assert((2 * d * (x * y)) * (2 * d * (x * y)) == 4 * (d * d) * (x * x) * (y * y))
            by (nonlinear_arith);
        assert(nx * (y * y) + ny * (x * x) >= 0) by (nonlinear_arith)
            requires
                nx >= 0 && ny >= 0,
        ;
        assert(2 * d * (x * y) <= nx * (y * y) + ny * (x * x)) by (nonlinear_arith)
            requires
                (2 * d * (x * y)) * (2 * d * (x * y)) <= (nx * (y * y) + ny * (x * x)) * (nx * (y
                    * y) + ny * (x * x)),
                nx * (y * y) + ny * (x * x) >= 0,
        ;
        assert((d + x * y) * (d + x * y) == d * d + 2 * d * (x * y) + (x * y) * (x * y))
            by (nonlinear_arith);
        assert((nx + x * x) * (ny + y * y) == nx * ny + nx * (y * y) + ny * (x * x) + (x * x) * (y
            * y)) by (nonlinear_arith);
        assert((x * y) * (x * y) == (x * x) * (y * y)) by (nonlinear_arith);
        assert((d + x * y) * (d + x * y) <= (nx + x * x) * (ny + y * y)) by (nonlinear_arith)
            requires
                d * d <= nx * ny,
                2 * d * (x * y) <= nx * (y * y) + ny * (x * x),
                (d + x * y) * (d + x * y) == d * d + 2 * d * (x * y) + (x * y) * (x * y),
                (nx + x * x) * (ny + y * y) == nx * ny + nx * (y * y) + ny * (x * x) + (x * x) * (
                y * y),
                (x * y) * (x * y) == (x * x) * (y * y),
        ;
    }
}

/// A dot product of prefixes stays within the norm bound.
pub proof fn lemma_dot_take_bound(a: Seq<int>, b: Seq<int>, i: int, l: int)
    requires
        a.len() == b.len(),
        0 <= i <= a.len(),
        0 <= l,
        norm_s(a) <= l,
        norm_s(b) <= l,
    ensures
        -l <= dot_s(a.take(i), b.take(i)) <= l,
{
    let ta = a.take(i);
    let tb = b.take(i);
    lemma_cauchy_schwarz(ta, tb);
    lemma_norm_take_le(a, i);
    lemma_norm_take_le(b, i);
    lemma_norm_nonneg(ta);
    lemma_norm_nonneg(tb);
    let d = dot_s(ta, tb);
    assert(d * d <= l * l) by (nonlinear_arith)
        requires
            d * d <= norm_s(ta) * norm_s(tb),
            0 <= norm_s(ta) <= l,
            0 <= norm_s(tb) <= l,
    ;
    assert(-l <= d <= l) by (nonlinear_arith)
        requires
            d * d <= l * l,
            0 <= l,
    ;
}

/// The exact order on cosine scores: each score is a dot product over
/// the square root of a positive product of squared norms, and the
/// ratios are compared by cross-multiplying their squares, minding
/// signs.
pub open spec fn score_le(d1: int, p1: int, d2: int, p2: int) -> bool {
    if d1 < 0 && d2 >= 0 {
        true
    } else if d1 >= 0 && d2 < 0 {
        false
    } else if d1 >= 0 && d2 >= 0 {
        d1 * d1 * p2 <= d2 * d2 * p1
    } else {
        d1 * d1 * p2 >= d2 * d2 * p1
    }
}

/// A score whose ratio is exactly one: the largest value the cosine of
/// two vectors can take.
pub open spec fn score_is_one(d: int, p: int) -> bool {
    d >= 0 && d * d == p
}

/// The score order is total on scores with positive denominators.
pub proof fn lemma_score_le_total(d1: int, p1: int, d2: int, p2: int)
    requires
        p1 >= 1,
        p2 >= 1,
    ensures
        score_le(d1, p1, d2, p2) || score_le(d2, p2, d1, p1),
{
}

/// The score order is transitive on scores with positive denominators.
pub proof fn lemma_score_le_trans(
    d1: int,
    p1: int,
    d2: int,
    p2: int,
    d3: int,
    p3: int,
)
    requires
        p1 >= 1,
        p2 >= 1,
        p3 >= 1,
        score_le(d1, p1, d2, p2),
        score_le(d2, p2, d3, p3),
    ensures
        score_le(d1, p1, d3, p3),
{
    if d1 >= 0 && d3 >= 0 {
        assert(d2 >= 0);
        assert(d1 * d1 * p3 * p2 <= d3 * d3 * p1 * p2) by (nonlinear_arith)
            requires
                d1 * d1 * p2 <= d2 * d2 * p1,
                d2 * d2 * p3 <= d3 * d3 * p2,
                p1 >= 1,
                p2 >= 1,
                p3 >= 1,
        ;
        assert(d1 * d1 * p3 <= d3 * d3 * p1) by (nonlinear_arith)
            requires
                d1 * d1 * p3 * p2 <= d3 * d3 * p1 * p2,
                p2 >= 1,
        ;
    } else if d1 < 0 && d3 < 0 {
        if d2 >= 0 {
            assert(false);
        }
        assert(d1 * d1 * p3 * p2 >= d3 * d3 * p1 * p2) by (nonlinear_arith)
            requires
                d1 * d1 * p2 >= d2 * d2 * p1,
                d2 * d2 * p3 >= d3 * d3 * p2,
                p1 >= 1,
                p2 >= 1,
                p3 >= 1,
        ;
        assert(d1 * d1 * p3 >= d3 * d3 * p1) by (nonlinear_arith)
            requires
                d1 * d1 * p3 * p2 >= d3 * d3 * p1 * p2,
                p2 >= 1,
        ;
    } else if d1 >= 0 && d3 < 0 {
        if d2 >= 0 {
            assert(false);
        } else {
            assert(false);
        }
    }
}

/// No cosine score exceeds one: the score of any pair of vectors is at
/// most the score one, by Cauchy-Schwarz.
pub proof fn lemma_score_at_most_one(q: Seq<int>, v: Seq<int>)
    requires
        q.len() == v.len(),
        norm_s(q) >= 1,
        norm_s(v) >= 1,
    ensures
        score_le(dot_s(q, v), norm_s(q) * norm_s(v), norm_s(q), norm_s(q) * norm_s(q)),
        score_is_one(norm_s(q), norm_s(q) * norm_s(q)),
{
    let d = dot_s(q, v);
    let nq = norm_s(q);
    let nv = norm_s(v);
    lemma_cauchy_schwarz(q, v);
    if d >= 0 {
        assert(d * d * (nq * nq) <= nq * nq * (nq * nv)) by (nonlinear_arith)
            requires
                d * d <= nq * nv,
                nq >= 1,
        ;
    }
}

/// Failure to accept a component vector.
#[derive(Debug)]
pub enum VectorError {
    /// A vector must have at least one component.
    Empty,
    /// A zero vector has no direction: cosine similarity is undefined
    /// for it.
    Zero,
    /// The squared norm exceeds `NORM_LIMIT`, outside the range in which
    /// scores compare exactly.
    TooLarge,
}

/// A fixed-point embedding vector, accepted only with a positive squared
/// norm of at most `NORM_LIMIT`; the squared norm is computed once at
/// construction.
pub struct EmbeddingVector {
    components: Vec<i64>,
    norm: u64,
}

impl View for EmbeddingVector {
    type V = Seq<int>;

    closed spec fn view(&self) -> Seq<int> {
        int_view(self.components@)
    }
}

impl EmbeddingVector {
    /// A stored squared norm that matches the components and lies in the
    /// accepted range.
    pub closed spec fn valid(&self) -> bool {
        &&& self@.len() >= 1
        &&& self.norm as int == norm_s(self@)
        &&& 1 <= self.norm <= NORM_LIMIT
    }

    /// The squared norm.
    pub closed spec fn spec_norm(&self) -> int {
        self.norm as int
    }

    /// Validity in terms of the view alone.
    pub proof fn lemma_valid_view(&self)
        requires
            self.valid(),
        ensures
            1 <= norm_s(self@) <= NORM_LIMIT,
            self@.len() >= 1,
            self.spec_norm() == norm_s(self@),
    {
    }

    /// Accepts a component vector, computing its squared norm: rejects
    /// an empty vector, a zero vector (its cosine is undefined) and one
    /// whose squared norm exceeds `NORM_LIMIT`.
    pub fn new(components: Vec<i64>) -> (r: Result<EmbeddingVector, VectorError>)
        ensures
            r is Ok <==> int_view(components@).len() >= 1 && 1 <= norm_s(int_view(components@))
                <= NORM_LIMIT,
            r matches Ok(v) ==> v@ == int_view(components@) && v.valid(),
            r matches Err(VectorError::Empty) ==> components@.len() == 0,
            r matches Err(VectorError::Zero) ==> components@.len() >= 1 && norm_s(
                int_view(components@),
            ) == 0,
            r matches Err(VectorError::TooLarge) ==> norm_s(int_view(components@)) > NORM_LIMIT,
    {
        let ghost a = int_view(components@);
        if components.len() == 0 {
            return Err(VectorError::Empty);
        }
        let mut acc: u64 = 0;
        let mut i: usize = 0;
        while i < components.len()
            invariant
                i <= components.len(),
                a == int_view(components@),
                a.len() == components@.len(),
                forall|j: int| 0 <= j < a.len() ==> a[j] == (#[trigger] components@[j]) as int,
                acc as int == norm_s(a.take(i as int)),
                acc <= NORM_LIMIT,
            decreases components.len() - i,
        {
            let c = components[i];
            proof {
                let ci = c as int;
                assert(0 <= ci * ci <= 0x40000000000000000000000000000000) by (nonlinear_arith)
                    requires
                        -0x8000000000000000 <= ci <= 0x7fffffffffffffff,
                ;
            }
            let sq: i128 = (c as i128) * (c as i128);
            proof {
                assert(sq == a[i as int] * a[i as int]);
                assert(sq >= 0) by (nonlinear_arith)
                    requires
                        sq == a[i as int] * a[i as int],
                ;
                let t = a.take(i + 1);
                assert(t.drop_last() =~= a.take(i as int));
                assert(t.last() == a[i as int]);
                assert(norm_s(t) == norm_s(a.take(i as int)) + a[i as int] * a[i as int]);
            }
            if sq > (NORM_LIMIT - acc) as i128 {
                proof {
                    lemma_norm_take_le(a, i + 1);
                }
                return Err(VectorError::TooLarge);
            }
            acc = acc + (sq as u64);
            i = i + 1;
        }
        proof {
            assert(a.take(components@.len() as int) =~= a);
        }
        if acc == 0 {
            return Err(VectorError::Zero);
        }
        Ok(EmbeddingVector { components, norm: acc })
    }

    /// The squared norm, computed once at construction.
    pub fn norm_sq(&self) -> (r: u64)
        requires
            self.valid(),
        ensures
            r as int == norm_s(self@),
            1 <= r <= NORM_LIMIT,
    {
        self.norm
    }

    /// A copy of the components.
    pub fn components(&self) -> (r: Vec<i64>)
        ensures
            int_view(r@) == self@,
    {
        let mut out: Vec<i64> = Vec::new();
        let mut i: usize = 0;
        while i < self.components.len()
            invariant
                i <= self.components.len(),
                out@.len() == i,
                forall|j: int| 0 <= j < i ==> out@[j] == self.components@[j],
            decreases self.components.len() - i,
        {
            out.push(self.components[i]);
            i = i + 1;
        }
        proof {
            assert(out@ =~= self.components@);
            assert(int_view(out@) =~= self@);
        }
        out
    }

    /// The dimensionality.
    pub fn dim(&self) -> (r: usize)
        ensures
            r == self@.len(),
    {
        proof {
            assert(self@.len() == self.components@.len());
        }
        self.components.len()
    }

    /// The dot product of two vectors of equal dimensionality.
    pub fn dot(&self, other: &EmbeddingVector) -> (r: i64)
        requires
            self.valid(),
            other.valid(),
            self@.len() == other@.len(),
        ensures
            r as int == dot_s(self@, other@),
    {
        let ghost a = self@;
        let ghost b = other@;
        proof {
            lemma_dot_take_bound(a, b, 0, NORM_LIMIT as int);
        }
        let mut acc: i64 = 0;
        let mut i: usize = 0;
        let n = self.components.len();
        while i < n
            invariant
                i <= n,
                n == self.components@.len(),
                a == self@,
                b == other@,
                self.valid(),
                other.valid(),
                a.len() == n,
                b.len() == n,
                acc as int == dot_s(a.take(i as int), b.take(i as int)),
                -(NORM_LIMIT as int) <= acc as int <= NORM_LIMIT as int,
            decreases n - i,
        {
            let x = self.components[i];
            let y = other.components[i];
            proof {
                assert(a[i as int] == x as int && b[i as int] == y as int);
                lemma_component_sq_le_norm(a, i as int);
                lemma_component_sq_le_norm(b, i as int);
                self.lemma_valid_view();
                other.lemma_valid_view();
                assert((x as int) * (x as int) <= NORM_LIMIT as int);
                assert((y as int) * (y as int) <= NORM_LIMIT as int);
                assert(-(NORM_LIMIT as int) <= (x as int) * (y as int) <= NORM_LIMIT as int)
                    by (nonlinear_arith)
                    requires
                        (x as int) * (x as int) <= NORM_LIMIT as int,
                        (y as int) * (y as int) <= NORM_LIMIT as int,
                ;
                let t = a.take(i + 1);
                let u = b.take(i + 1);
                assert(t.drop_last() =~= a.take(i as int));
                assert(u.drop_last() =~= b.take(i as int));
                assert(t.last() == a[i as int] && u.last() == b[i as int]);
                assert(dot_s(t, u) == dot_s(a.take(i as int), b.take(i as int)) + a[i as int]
                    * b[i as int]);
            }
            let p = x * y;
            acc = acc + p;
            proof {
                lemma_dot_take_bound(a, b, i + 1, NORM_LIMIT as int);
            }
            i = i + 1;
        }
        proof {
            assert(a.take(n as int) =~= a);
            assert(b.take(n as int) =~= b);
        }
        acc
    }
}

impl Clone for EmbeddingVector {
    fn clone(&self) -> (r: Self)
        ensures
            r@ == self@,
            r.valid() == self.valid(),
            r.spec_norm() == self.spec_norm(),
    {
        let mut components: Vec<i64> = Vec::new();
        let mut i: usize = 0;
        while i < self.components.len()
            invariant
                i <= self.components.len(),
                components@.len() == i,
                forall|j: int| 0 <= j < i ==> components@[j] == self.components@[j],
            decreases self.components.len() - i,
        {
            components.push(self.components[i]);
            i = i + 1;
        }
        proof {
            assert(components@ =~= self.components@);
        }
        EmbeddingVector { components, norm: self.norm }
    }
}

/// A similarity score: the cosine of a query vector and a stored vector,
/// kept exactly as the dot product and the product of the two squared
/// norms.
pub struct CosineScore {
    dot: i64,
    prod: u64,
}

impl CosineScore {
    /// The dot product part.
    pub closed spec fn spec_dot(&self) -> int {
        self.dot as int
    }

    /// The squared-norm product part.
    pub closed spec fn spec_prod(&self) -> int {
        self.prod as int
    }

    /// A score of two accepted vectors: positive denominator, numerator
    /// within Cauchy-Schwarz range.
    pub open spec fn valid(&self) -> bool {
        &&& 1 <= self.spec_prod() <= (NORM_LIMIT as int) * (NORM_LIMIT as int)
        &&& self.spec_dot() * self.spec_dot() <= self.spec_prod()
    }

    /// Packs a dot product and a norm product.
    pub(crate) fn make(dot: i64, prod: u64) -> (r: CosineScore)
        requires
            1 <= prod as int <= (NORM_LIMIT as int) * (NORM_LIMIT as int),
            (dot as int) * (dot as int) <= prod as int,
        ensures
            r.spec_dot() == dot as int,
            r.spec_prod() == prod as int,
            r.valid(),
    {
        CosineScore { dot, prod }
    }

    /// Whether this score is at most the other, in the exact cosine
    /// order.
    pub fn le(&self, other: &CosineScore) -> (r: bool)
        requires
            self.valid(),
            other.valid(),
        ensures
            r == score_le(self.spec_dot(), self.spec_prod(), other.spec_dot(), other.spec_prod()),
    {
        if self.dot < 0 && other.dot >= 0 {
            true
        } else if self.dot >= 0 && other.dot < 0 {
            false
        } else {
            proof {
                let d1 = self.spec_dot();
                let d2 = other.spec_dot();
                let p1 = self.spec_prod();
                let p2 = other.spec_prod();
                let lim: int = (NORM_LIMIT as int) * (NORM_LIMIT as int);
                assert(d1 * d1 >= 0) by (nonlinear_arith);
                assert(d2 * d2 >= 0) by (nonlinear_arith);
                assert(0 <= d1 * d1 * p2 <= lim * lim) by (nonlinear_arith)
                    requires
                        0 <= d1 * d1 <= lim,
                        1 <= p2 <= lim,
                ;
                assert(0 <= d2 * d2 * p1 <= lim * lim) by (nonlinear_arith)
                    requires
                        0 <= d2 * d2 <= lim,
                        1 <= p1 <= lim,
                ;
            }
            let l: i128 = (self.dot as i128) * (self.dot as i128) * (other.prod as i128);
            let r2: i128 = (other.dot as i128) * (other.dot as i128) * (self.prod as i128);
            proof {
                assert(l == self.spec_dot() * self.spec_dot() * other.spec_prod());
                assert(r2 == other.spec_dot() * other.spec_dot() * self.spec_prod());
            }
            if self.dot >= 0 {
                l <= r2
            } else {
                l >= r2
            }
        }
    }

    /// Whether this score is the maximum attainable: a cosine of exactly
    /// one, as a vector scores against itself.
    pub fn is_max(&self) -> (r: bool)
        ensures
            r == score_is_one(self.spec_dot(), self.spec_prod()),
    {
        proof {
            let d = self.dot as int;
            assert(0 <= d * d <= 0x40000000000000000000000000000000) by (nonlinear_arith)
                requires
                    -0x8000000000000000 <= d <= 0x7fffffffffffffff,
            ;
        }
        self.dot >= 0 && (self.dot as i128) * (self.dot as i128) == self.prod as i128
    }
}

impl Clone for CosineScore {
    fn clone(&self) -> (r: Self)
        ensures
            r == *self,
    {
        CosineScore { dot: self.dot, prod: self.prod }
    }
}

/// A dot product is symmetric.
pub proof fn lemma_dot_sym(a: Seq<int>, b: Seq<int>)
    requires
        a.len() == b.len(),
    ensures
        dot_s(a, b) == dot_s(b, a),
    decreases a.len(),
{
    if a.len() > 0 {
        lemma_dot_sym(a.drop_last(), b.drop_last());
    }
}

/// The pointwise combination `c1*x - c2*y` of two sequences.
pub open spec fn combo(c1: int, x: Seq<int>, c2: int, y: Seq<int>) -> Seq<int> {
    Seq::new(x.len(), |i: int| c1 * x[i] - c2 * y[i])
}

/// The squared norm of a combination, by bilinearity.
pub proof fn lemma_norm_combo(c1: int, x: Seq<int>, c2: int, y: Seq<int>)
    requires
        x.len() == y.len(),
    ensures
        norm_s(combo(c1, x, c2, y)) == c1 * c1 * norm_s(x) - 2 * c1 * c2 * dot_s(x, y) + c2 * c2
            * norm_s(y),
    decreases x.len(),
{
    let w = combo(c1, x, c2, y);
    if x.len() == 0 {
        assert(w.len() == 0);
    } else {
        let x0 = x.drop_last();
        let y0 = y.drop_last();
        lemma_norm_combo(c1, x0, c2, y0);
        let w0 = combo(c1, x0, c2, y0);
        assert(w.drop_last() =~= w0);
        assert(w.drop_last() == w0);
        assert(w.last() == c1 * x.last() - c2 * y.last());
        assert(norm_s(w) == norm_s(w0) + w.last() * w.last());
        assert(norm_s(x) == norm_s(x0) + x.last() * x.last());
        assert(norm_s(y) == norm_s(y0) + y.last() * y.last());
        assert(dot_s(x, y) == dot_s(x0, y0) + x.last() * y.last());
        let xl = x.last();
        let yl = y.last();
        let u = c1 * xl;
        let v = c2 * yl;
        assert((u - v) * (u - v) == u * u - 2 * (u * v) + v * v) by (nonlinear_arith);
        assert(u * u == c1 * c1 * (xl * xl)) by (nonlinear_arith)
            requires
                u == c1 * xl,
        ;
        assert(v * v == c2 * c2 * (yl * yl)) by (nonlinear_arith)
            requires
                v == c2 * yl,
        ;
        assert(u * v == c1 * c2 * (xl * yl)) by (nonlinear_arith)
            requires
                u == c1 * xl && v == c2 * yl,
        ;
        assert(2 * (c1 * c2 * (xl * yl)) == 2 * c1 * c2 * (xl * yl)) by (nonlinear_arith);
        assert((c1 * xl - c2 * yl) * (c1 * xl - c2 * yl) == c1 * c1 * (xl * xl) - 2 * c1 * c2 * (
        xl * yl) + c2 * c2 * (yl * yl));
        assert(c1 * c1 * (norm_s(x0) + xl * xl) == c1 * c1 * norm_s(x0) + c1 * c1 * (xl * xl))
            by (nonlinear_arith);
        assert(c2 * c2 * (norm_s(y0) + yl * yl) == c2 * c2 * norm_s(y0) + c2 * c2 * (yl * yl))
            by (nonlinear_arith);
        assert(2 * c1 * c2 * (dot_s(x0, y0) + xl * yl) == 2 * c1 * c2 * dot_s(x0, y0) + 2 * c1
            * c2 * (xl * yl)) by (nonlinear_arith);
        assert(norm_s(w) == c1 * c1 * norm_s(x) - 2 * c1 * c2 * dot_s(x, y) + c2 * c2 * norm_s(y));
    }
}

/// Only the zero sequence has squared norm zero.
pub proof fn lemma_norm_zero(s: Seq<int>)
    requires
        norm_s(s) == 0,
    ensures
        forall|i: int| 0 <= i < s.len() ==> s[i] == 0,
    decreases s.len(),
{
    if s.len() > 0 {
        let s0 = s.drop_last();
        lemma_norm_nonneg(s0);
        assert(norm_s(s) == norm_s(s0) + s.last() * s.last());
        assert(s.last() * s.last() >= 0) by (nonlinear_arith);
        assert(s.last() == 0) by (nonlinear_arith)
            requires
                s.last() * s.last() == 0,
        ;
        lemma_norm_zero(s0);
        assert forall|i: int| 0 <= i < s.len() implies s[i] == 0 by {
            if i < s.len() - 1 {
                assert(s0[i] == s[i]);
            }
        }
    }
}

/// The Cauchy-Schwarz equality case: when the square of the dot product
/// reaches the product of the squared norms, the second sequence is the
/// scalar multiple `dot/norm` of the first.
pub proof fn lemma_cauchy_schwarz_eq(a: Seq<int>, b: Seq<int>)
    requires
        a.len() == b.len(),
        dot_s(a, b) * dot_s(a, b) == norm_s(a) * norm_s(b),
    ensures
        forall|i: int| 0 <= i < b.len() ==> norm_s(a) * b[i] == dot_s(a, b) * a[i],
{
    let d = dot_s(a, b);
    let na = norm_s(a);
    let nb = norm_s(b);
    let w = combo(na, b, d, a);
    lemma_norm_combo(na, b, d, a);
    lemma_dot_sym(b, a);
    assert(norm_s(w) == na * na * nb - 2 * na * d * d + d * d * na) by (nonlinear_arith)
        requires
            norm_s(w) == na * na * norm_s(b) - 2 * na * d * dot_s(b, a) + d * d * norm_s(a),
            dot_s(b, a) == d,
            norm_s(b) == nb,
            norm_s(a) == na,
    ;
    assert(norm_s(w) == 0) by (nonlinear_arith)
        requires
            norm_s(w) == na * na * nb - 2 * na * d * d + d * d * na,
            d * d == na * nb,
    ;
    lemma_norm_zero(w);
    assert forall|i: int| 0 <= i < b.len() implies na * b[i] == d * a[i] by {
        assert(w[i] == na * b[i] - d * a[i]);
        assert(w[i] == 0);
    }
}

/// Whether `w` points in exactly the direction of `q`: a non-negative
/// scalar multiple, the scalar being `dot/norm` as the equality case of
/// Cauchy-Schwarz gives it.
pub open spec fn positively_parallel(q: Seq<int>, w: Seq<int>) -> bool {
    &&& dot_s(q, w) >= 0
    &&& forall|t: int| 0 <= t < w.len() ==> norm_s(q) * w[t] == dot_s(q, w) * q[t]
}

/// A vector that is not a non-negative multiple of the query scores
/// strictly below one: its squared cosine stays strictly under the
/// product of norms, or its dot product is negative.
pub proof fn lemma_score_strictly_below_one(q: Seq<int>, w: Seq<int>)
    requires
        q.len() == w.len(),
        norm_s(q) >= 1,
        norm_s(w) >= 1,
        !positively_parallel(q, w),
    ensures
        score_le(dot_s(q, w), norm_s(q) * norm_s(w), norm_s(q), norm_s(q) * norm_s(q)),
        !score_le(norm_s(q), norm_s(q) * norm_s(q), dot_s(q, w), norm_s(q) * norm_s(w)),
{
    let d = dot_s(q, w);
    let nq = norm_s(q);
    let nw = norm_s(w);
    lemma_score_at_most_one(q, w);
    if d >= 0 {
        lemma_cauchy_schwarz(q, w);
        if d * d == nq * nw {
            lemma_cauchy_schwarz_eq(q, w);
            assert(positively_parallel(q, w));
        }
        assert(d * d < nq * nw);
        assert(!(nq * nq * (nq * nw) <= d * d * (nq * nq))) by (nonlinear_arith)
            requires
                d * d < nq * nw,
                nq >= 1,
        ;
    }
}

} // verus!
