//! The mathematical model: 2×2 integer matrices and the encoding of a path
//! vector as a product of elementary matrices.

use vstd::arithmetic::mul::{
    lemma_mul_is_associative, lemma_mul_is_distributive_add,
    lemma_mul_is_distributive_add_other_way,
};
use vstd::prelude::*;

verus! {

/// The constant added to every path element before it becomes a
/// continued-fraction term, and subtracted again when a term is reported as a
/// path element.
///
/// A rational number has two continued-fraction expansions, one ending in 1
/// and one not, so `[3, 5, 1]` and `[3, 6]` would otherwise collide. With the
/// offset every term is at least 2 and no expansion ever ends in 1.
pub const OFFSET: u64 = 2;

/// A 2×2 matrix over the mathematical integers:
///
/// ```text
/// | a  b |
/// | c  d |
/// ```
pub struct Matrix {
    pub a: int,
    pub b: int,
    pub c: int,
    pub d: int,
}

impl Matrix {
    /// The identity matrix, which stands for the root (the empty path).
    pub open spec fn identity() -> Matrix {
        Matrix { a: 1, b: 0, c: 0, d: 1 }
    }

    /// The elementary matrix of the continued-fraction term `t`.
    pub open spec fn term(t: int) -> Matrix {
        Matrix { a: t, b: 1, c: 1, d: 0 }
    }

    /// The elementary matrix of one path element: its term is the element
    /// plus [`OFFSET`].
    pub open spec fn element(x: u64) -> Matrix {
        Matrix::term(x + OFFSET)
    }

    /// The matrix product `self · rhs`.
    pub open spec fn times(self, rhs: Matrix) -> Matrix {
        Matrix {
            a: self.a * rhs.a + self.b * rhs.c,
            b: self.a * rhs.b + self.b * rhs.d,
            c: self.c * rhs.a + self.d * rhs.c,
            d: self.c * rhs.b + self.d * rhs.d,
        }
    }

    /// Every entry is a value of `u64`.
    pub open spec fn fits(self) -> bool {
        &&& 0 <= self.a <= u64::MAX
        &&& 0 <= self.b <= u64::MAX
        &&& 0 <= self.c <= u64::MAX
        &&& 0 <= self.d <= u64::MAX
    }
}

/// The matrix that encodes `path`: the product, in order, of the elementary
/// matrices of its elements. The empty path encodes to the identity.
pub open spec fn encode(path: Seq<u64>) -> Matrix
    decreases path.len(),
{
    if path.len() == 0 {
        Matrix::identity()
    } else {
        encode(path.drop_last()).times(Matrix::element(path.last()))
    }
}

/// A path is encodable when its matrix fits the fixed-width entries of an
/// identifier.
pub open spec fn encodable(path: Seq<u64>) -> bool {
    encode(path).fits()
}

/// One entry of the associativity law, over plain integers.
proof fn lemma_entry_assoc(p: int, q: int, r: int, s: int, t: int, u: int, v: int, w: int)
    ensures
        (p * q + r * s) * t + (p * u + r * v) * w == p * (q * t + u * w) + r * (s * t + v * w),
{
    lemma_mul_is_distributive_add_other_way(t, p * q, r * s);
    lemma_mul_is_distributive_add_other_way(w, p * u, r * v);
    lemma_mul_is_distributive_add(p, q * t, u * w);
    lemma_mul_is_distributive_add(r, s * t, v * w);
    lemma_mul_is_associative(p, q, t);
    lemma_mul_is_associative(r, s, t);
    lemma_mul_is_associative(p, u, w);
    lemma_mul_is_associative(r, v, w);
}

/// Matrix multiplication is associative.
pub proof fn lemma_times_assoc(x: Matrix, y: Matrix, z: Matrix)
    ensures
        x.times(y).times(z) == x.times(y.times(z)),
{
    lemma_entry_assoc(x.a, y.a, x.b, y.c, z.a, y.b, y.d, z.c);
    lemma_entry_assoc(x.a, y.a, x.b, y.c, z.b, y.b, y.d, z.d);
    lemma_entry_assoc(x.c, y.a, x.d, y.c, z.a, y.b, y.d, z.c);
    lemma_entry_assoc(x.c, y.a, x.d, y.c, z.b, y.b, y.d, z.d);
}

/// The identity is neutral on both sides.
pub proof fn lemma_times_identity(x: Matrix)
    ensures
        x.times(Matrix::identity()) == x,
        Matrix::identity().times(x) == x,
{
}

/// Multiplying by an elementary matrix on the right: the columns shift to
/// the right and the new left column is `t` times the old left plus the old
/// right.
pub proof fn lemma_times_term(m: Matrix, t: int)
    ensures
        m.times(Matrix::term(t)) == (Matrix { a: m.a * t + m.b, b: m.a, c: m.c * t + m.d, d: m.c }),
{
    let e = Matrix::term(t);
    assert(m.b * e.c == m.b && m.a * e.b == m.a && m.b * e.d == 0);
    assert(m.d * e.c == m.d && m.c * e.b == m.c && m.d * e.d == 0);
}

/// Multiplying by an elementary matrix on the left: the rows shift down and
/// the new top row is `t` times the old top plus the old bottom.
pub proof fn lemma_term_times(t: int, m: Matrix)
    ensures
        Matrix::term(t).times(m) == (Matrix { a: t * m.a + m.c, b: t * m.b + m.d, c: m.a, d: m.b }),
{
    let e = Matrix::term(t);
    assert(e.b * m.c == m.c && e.b * m.d == m.d);
    assert(e.c * m.a == m.a && e.c * m.b == m.b);
    assert(e.d * m.c == 0 && e.d * m.d == 0);
}

/// Every encoding has positive top-left entry, which strictly exceeds both of
/// its neighbours. The encoding of a non-empty path has a positive top-right
/// and bottom-left entry, so only the empty path encodes to the identity.
pub proof fn lemma_encode_shape(path: Seq<u64>)
    ensures
        0 <= encode(path).b < encode(path).a,
        0 <= encode(path).c < encode(path).a,
        0 <= encode(path).d,
        path.len() == 0 ==> encode(path) == Matrix::identity(),
        path.len() > 0 ==> 1 <= encode(path).b && 1 <= encode(path).c && encode(path).d <= encode(
            path,
        ).b,
    decreases path.len(),
{
    if path.len() > 0 {
        let prev = encode(path.drop_last());
        let t: int = path.last() + OFFSET;
        lemma_encode_shape(path.drop_last());
        lemma_times_term(prev, t);
        assert(prev.a * t >= prev.a * 2) by (nonlinear_arith)
            requires
                prev.a >= 1,
                t >= 2,
        ;
        assert(prev.c * t <= (prev.a - 1) * t) by (nonlinear_arith)
            requires
                prev.c <= prev.a - 1,
                t >= 2,
        ;
        assert((prev.a - 1) * t == prev.a * t - t) by (nonlinear_arith);
        assert(prev.c * t >= prev.c) by (nonlinear_arith)
            requires
                prev.c >= 0,
                t >= 2,
        ;
    }
}

/// Encoding turns concatenation of paths into multiplication of matrices.
pub proof fn lemma_encode_concat(p: Seq<u64>, q: Seq<u64>)
    ensures
        encode(p + q) == encode(p).times(encode(q)),
    decreases q.len(),
{
    if q.len() == 0 {
        assert(p + q =~= p);
        lemma_times_identity(encode(p));
    } else {
        assert((p + q).drop_last() =~= p + q.drop_last());
        lemma_encode_concat(p, q.drop_last());
        lemma_times_assoc(encode(p), encode(q.drop_last()), Matrix::element(q.last()));
    }
}

/// The matrix of a non-empty path is the elementary matrix of its first
/// element times the matrix of the rest.
pub proof fn lemma_encode_front(path: Seq<u64>)
    requires
        path.len() > 0,
    ensures
        encode(path) == Matrix::element(path.first()).times(encode(path.drop_first())),
{
    let head = seq![path.first()];
    assert(head.drop_last() =~= Seq::<u64>::empty());
    assert(encode(head.drop_last()) == Matrix::identity());
    assert(encode(head) == Matrix::identity().times(Matrix::element(path.first())));
    lemma_times_identity(Matrix::element(path.first()));
    assert(head + path.drop_first() =~= path);
    lemma_encode_concat(head, path.drop_first());
}

/// Concatenation never lowers the top-left entry, so every prefix and every
/// suffix of an encodable path is encodable.
pub proof fn lemma_concat_grows(p: Seq<u64>, q: Seq<u64>)
    ensures
        encode(p).a <= encode(p + q).a,
        encode(q).a <= encode(p + q).a,
        encodable(p + q) ==> encodable(p) && encodable(q),
{
    let x = encode(p);
    let y = encode(q);
    lemma_encode_concat(p, q);
    lemma_encode_shape(p);
    lemma_encode_shape(q);
    lemma_encode_shape(p + q);
    assert(x.a * y.a >= x.a && x.a * y.a >= y.a && x.b * y.c >= 0) by (nonlinear_arith)
        requires
            x.a >= 1,
            y.a >= 1,
            x.b >= 0,
            y.c >= 0,
    ;
}

/// Division with remainder is unique.
proof fn lemma_quotient_unique(a: int, t1: int, r1: int, t2: int, r2: int)
    requires
        a * t1 + r1 == a * t2 + r2,
        0 <= r1 < a,
        0 <= r2 < a,
    ensures
        t1 == t2,
        r1 == r2,
{
    assert(t1 == t2) by (nonlinear_arith)
        requires
            a * t1 + r1 == a * t2 + r2,
            0 <= r1 < a,
            0 <= r2 < a,
    ;
}

/// Encoding is injective: two paths with the same matrix are the same path.
pub proof fn lemma_encode_injective(p: Seq<u64>, q: Seq<u64>)
    requires
        encode(p) == encode(q),
    ensures
        p == q,
    decreases p.len(),
{
    lemma_encode_shape(p);
    lemma_encode_shape(q);
    if p.len() == 0 || q.len() == 0 {
        assert(p =~= q);
    } else {
        let pm = encode(p.drop_last());
        let qm = encode(q.drop_last());
        lemma_encode_shape(p.drop_last());
        lemma_encode_shape(q.drop_last());
        lemma_times_term(pm, p.last() + OFFSET);
        lemma_times_term(qm, q.last() + OFFSET);
        lemma_quotient_unique(pm.a, p.last() + OFFSET, pm.b, q.last() + OFFSET, qm.b);
        lemma_encode_injective(p.drop_last(), q.drop_last());
        assert(p =~= p.drop_last().push(p.last()));
        assert(q =~= q.drop_last().push(q.last()));
    }
}

} // verus!
