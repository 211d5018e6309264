//! Path identifiers and the operations that create and read them.

use crate::error::PathError;
use crate::matrix::{
    encodable, encode, lemma_concat_grows, lemma_encode_concat, lemma_encode_front,
    lemma_encode_injective, lemma_encode_shape, lemma_term_times, lemma_times_term, Matrix, OFFSET,
};
use crate::text::{format_path, parse_path, parse_text, path_text};
use vstd::arithmetic::div_mod::lemma_fundamental_div_mod_converse;
use vstd::prelude::*;

verus! {

/// The identifier of a path vector: the 2×2 matrix that encodes it, held in
/// fixed-width entries `(a, b, c, d)` for the matrix with rows `a b` and
/// `c d`.
///
/// Every identifier is the encoding of exactly one path, its view.
#[derive(Debug, PartialEq, Eq, Structural)]
pub struct PathIdentifier(u64, u64, u64, u64);

impl View for PathIdentifier {
    type V = Seq<u64>;

    /// The path that this identifier encodes.
    open spec fn view(&self) -> Seq<u64> {
        choose|path: Seq<u64>| encode(path) == self.matrix()
    }
}

impl PathIdentifier {
    /// The matrix held by this identifier.
    pub closed spec fn matrix(&self) -> Matrix {
        Matrix { a: self.0 as int, b: self.1 as int, c: self.2 as int, d: self.3 as int }
    }

    /// The identifier whose entries are those of the matrix of `path`.
    pub closed spec fn encoding(path: Seq<u64>) -> PathIdentifier {
        PathIdentifier(
            encode(path).a as u64,
            encode(path).b as u64,
            encode(path).c as u64,
            encode(path).d as u64,
        )
    }

    /// The identifier of an encodable path is well formed, holds the path's
    /// matrix and has the path as its view.
    pub proof fn lemma_encoding(path: Seq<u64>)
        requires
            encodable(path),
        ensures
            PathIdentifier::encoding(path).wf(),
            PathIdentifier::encoding(path).matrix() == encode(path),
            PathIdentifier::encoding(path)@ == path,
    {
        PathIdentifier::encoding(path).lemma_view_unique(path);
    }

    /// A well-formed identifier is the encoding of its view.
    pub proof fn lemma_encoding_of_view(&self)
        requires
            self.wf(),
        ensures
            *self == PathIdentifier::encoding(self@),
    {
    }

    /// What a text stands for: the identifier of its path, the parse error
    /// when it stands for no path, or the overflow error when its path is
    /// not encodable.
    pub open spec fn of_text(text: Seq<char>) -> Result<PathIdentifier, PathError> {
        match parse_text(text) {
            None => Err(PathError::Parse),
            Some(path) => if encodable(path) {
                Ok(PathIdentifier::encoding(path))
            } else {
                Err(PathError::Overflow)
            },
        }
    }

    /// The identifier with the given entries.
    closed spec fn of_entries(a: u64, b: u64, c: u64, d: u64) -> PathIdentifier {
        PathIdentifier(a, b, c, d)
    }

    /// An identifier is well formed when its matrix encodes some path. Every
    /// identifier that a program holds is well formed: the entries are
    /// private, and each operation that makes an identifier proves it.
    #[verifier::type_invariant]
    pub open spec fn wf(&self) -> bool {
        exists|path: Seq<u64>| encode(path) == self.matrix()
    }

    /// A well-formed identifier encodes its view, and its entries fit.
    pub proof fn lemma_view(&self)
        requires
            self.wf(),
        ensures
            encode(self@) == self.matrix(),
            self.matrix().fits(),
    {
    }

    /// The view of an identifier is the only path with its matrix.
    pub proof fn lemma_view_unique(&self, path: Seq<u64>)
        requires
            encode(path) == self.matrix(),
        ensures
            self.wf(),
            self@ == path,
    {
        lemma_encode_injective(self@, path);
    }

    /// The identifier of the root, the empty path.
    pub fn root() -> (id: PathIdentifier)
        ensures
            id == PathIdentifier::encoding(Seq::empty()),
            id.wf(),
            id@ == Seq::<u64>::empty(),
            id.matrix() == Matrix::identity(),
    {
        proof {
            let id = PathIdentifier::of_entries(1, 0, 0, 1);
            assert(encode(Seq::<u64>::empty()) == id.matrix());
            id.lemma_view_unique(Seq::<u64>::empty());
        }
        PathIdentifier(1, 0, 0, 1)
    }

    /// Whether this is the identifier of the root.
    pub fn is_root(&self) -> (r: bool)
        ensures
            r == (self@.len() == 0),
            r == (self.matrix() == Matrix::identity()),
    {
        proof {
            use_type_invariant(self);
            self.lemma_view();
            lemma_encode_shape(self@);
        }
        self.1 == 0
    }

    /// The identifier of the one-element path `[element]`, or `None` when the
    /// element plus [`OFFSET`] is no value of `u64`.
    pub fn from_path_element(element: u64) -> (r: Option<PathIdentifier>)
        ensures
            r is Some <==> encodable(seq![element]),
            r matches Some(id) ==> id.wf() && id@ == seq![element],
    {
        proof {
            lemma_single(element);
        }
        match element.checked_add(OFFSET) {
            Some(term) => {
                proof {
                    PathIdentifier::of_entries(term, 1, 1, 0).lemma_view_unique(seq![element]);
                }
                Some(PathIdentifier(term, 1, 1, 0))
            },
            None => None,
        }
    }

    /// The identifier of `self@ + other@`, the path of `other` taken from the
    /// node of `self`: the product of the two matrices. `None` when that
    /// path is not encodable.
    pub fn checked_mul(&self, other: &PathIdentifier) -> (r: Option<PathIdentifier>)
        ensures
            r is Some <==> encodable(self@ + other@),
            r matches Some(id) ==> id.wf() && id@ == self@ + other@,
            r matches Some(id) ==> id.matrix() == self.matrix().times(other.matrix()),
    {
        proof {
            use_type_invariant(self);
            use_type_invariant(other);
            self.lemma_view();
            other.lemma_view();
            lemma_encode_concat(self@, other@);
        }
        let a = checked_dot(self.0, other.0, self.1, other.2);
        let b = checked_dot(self.0, other.1, self.1, other.3);
        let c = checked_dot(self.2, other.0, self.3, other.2);
        let d = checked_dot(self.2, other.1, self.3, other.3);
        match (a, b, c, d) {
            (Some(a), Some(b), Some(c), Some(d)) => {
                proof {
                    PathIdentifier::of_entries(a, b, c, d).lemma_view_unique(self@ + other@);
                }
                Some(PathIdentifier(a, b, c, d))
            },
            _ => None,
        }
    }

    /// The identifier of `path`, or the overflow error when `path` is not
    /// encodable.
    pub fn from_path(path: &[u64]) -> (r: Result<PathIdentifier, PathError>)
        ensures
            r is Ok <==> encodable(path@),
            r matches Ok(id) ==> id == PathIdentifier::encoding(path@),
            r matches Ok(id) ==> id.wf() && id@ == path@ && id.matrix() == encode(path@),
            r matches Err(e) ==> e == PathError::Overflow,
    {
        let mut id = PathIdentifier::root();
        let mut i: usize = 0;
        while i < path.len()
            invariant
                i <= path.len(),
                id.wf(),
                id@ == path@.take(i as int),
            decreases path.len() - i,
        {
            proof {
                assert(path@.take(i as int + 1) =~= path@.take(i as int) + seq![path@[i as int]]);
                assert(path@ =~= path@.take(i as int + 1) + path@.skip(i as int + 1));
                lemma_concat_grows(path@.take(i as int), seq![path@[i as int]]);
                lemma_concat_grows(path@.take(i as int + 1), path@.skip(i as int + 1));
            }
            let step = match PathIdentifier::from_path_element(path[i]) {
                Some(step) => step,
                None => {
                    return Err(PathError::Overflow);
                },
            };
            id = match id.checked_mul(&step) {
                Some(next) => next,
                None => {
                    return Err(PathError::Overflow);
                },
            };
            i += 1;
        }
        proof {
            assert(path@.take(i as int) =~= path@);
            id.lemma_view();
            id.lemma_encoding_of_view();
        }
        Ok(id)
    }

    /// A walk over the elements of the path, from the first to the last. The
    /// walk has a copy of the identifier's entries, so each call starts anew.
    pub fn path_iter(&self) -> (walk: PathIterator)
        ensures
            walk@ == self@,
    {
        PathIterator { current: self.clone() }
    }

    /// The path that this identifier encodes.
    pub fn path(&self) -> (path: Vec<u64>)
        ensures
            path@ == self@,
    {
        let mut walk = self.path_iter();
        let mut path: Vec<u64> = Vec::new();
        loop
            invariant
                path@ + walk@ == self@,
            decreases walk@.len(),
        {
            let ghost before = walk@;
            match walk.next() {
                Some(element) => {
                    path.push(element);
                    proof {
                        assert(path@ + walk@ =~= path@.drop_last() + before);
                    }
                },
                None => {
                    proof {
                        assert(path@ + walk@ =~= path@);
                    }
                    return path;
                },
            }
        }
    }

    /// The canonical text of the path: its elements in decimal, separated by
    /// dots. The text of the root is empty.
    pub fn text(&self) -> (text: String)
        ensures
            text@ == path_text(self@),
    {
        let path = self.path();
        format_path(path.as_slice())
    }

    /// The four entries `(a, b, c, d)` of the matrix.
    pub fn entries(&self) -> (r: (u64, u64, u64, u64))
        ensures
            r.0 == self.matrix().a,
            r.1 == self.matrix().b,
            r.2 == self.matrix().c,
            r.3 == self.matrix().d,
    {
        (self.0, self.1, self.2, self.3)
    }
}

/// A walk over the elements of an encoded path. Its view is the part of the
/// path that it has not yet given out.
pub struct PathIterator {
    current: PathIdentifier,
}

impl View for PathIterator {
    type V = Seq<u64>;

    closed spec fn view(&self) -> Seq<u64> {
        self.current@
    }
}

impl PathIterator {
    /// The next element of the path, or `None` at its end. One step of
    /// Euclid's algorithm: the element is the quotient of the left column's
    /// entries less [`OFFSET`], and the remainders become the bottom row.
    pub fn next(&mut self) -> (r: Option<u64>)
        ensures
            r is Some <==> old(self)@.len() > 0,
            r matches Some(element) ==> element == old(self)@.first() && final(self)@ == old(
                self,
            )@.drop_first(),
            r is None ==> final(self)@ == old(self)@,
    {
        if self.current.is_root() {
            return None;
        }
        let ghost rest = self.current@;
        let ghost tail = encode(rest.drop_first());
        let ghost term: int = rest.first() + OFFSET;
        proof {
            use_type_invariant(&self.current);
            self.current.lemma_view();
            lemma_encode_front(rest);
            lemma_term_times(term, tail);
            lemma_encode_shape(rest.drop_first());
            lemma_fundamental_div_mod_converse(self.current.0 as int, tail.a, term, tail.c);
            assert(tail.a * term == term * tail.a && tail.b * term == term * tail.b)
                by (nonlinear_arith);
        }
        let s0 = self.current.0;
        let s1 = self.current.1;
        let s2 = self.current.2;
        let s3 = self.current.3;
        let quotient = s0 / s2;
        proof {
            PathIdentifier::of_entries(
                s2,
                s3,
                (s0 - s2 * quotient) as u64,
                (s1 - s3 * quotient) as u64,
            ).lemma_view_unique(rest.drop_first());
        }
        self.current = PathIdentifier(s2, s3, s0 - s2 * quotient, s1 - s3 * quotient);
        Some(quotient - OFFSET)
    }
}

/// The matrix of a one-element path.
proof fn lemma_single(element: u64)
    ensures
        encode(seq![element]) == Matrix::term(element + OFFSET),
{
    let path = seq![element];
    assert(path.drop_last() =~= Seq::<u64>::empty());
    assert(encode(path.drop_last()) == Matrix::identity());
    lemma_times_term(Matrix::identity(), element + OFFSET);
}

/// `x0 · y0 + x1 · y1`, or `None` when that is no value of `u64`.
fn checked_dot(x0: u64, y0: u64, x1: u64, y1: u64) -> (r: Option<u64>)
    ensures
        r is Some <==> x0 * y0 + x1 * y1 <= u64::MAX,
        r matches Some(v) ==> v == x0 * y0 + x1 * y1,
{
    proof {
        assert(x0 * y0 >= 0 && x1 * y1 >= 0) by (nonlinear_arith);
    }
    match (x0.checked_mul(y0), x1.checked_mul(y1)) {
        (Some(left), Some(right)) => left.checked_add(right),
        _ => None,
    }
}

impl vstd::std_specs::ops::MulSpecImpl for PathIdentifier {
    open spec fn obeys_mul_spec() -> bool {
        true
    }

    open spec fn mul_req(self, rhs: PathIdentifier) -> bool {
        encodable(self@ + rhs@)
    }

    open spec fn mul_spec(self, rhs: PathIdentifier) -> PathIdentifier {
        PathIdentifier::encoding(self@ + rhs@)
    }
}

impl core::ops::Mul for PathIdentifier {
    type Output = PathIdentifier;

    /// The identifier of `self@ + other@`, for paths whose concatenation is
    /// encodable.
    fn mul(self, other: PathIdentifier) -> (r: PathIdentifier)
        ensures
            r@ == self@ + other@,
            r.matrix() == self.matrix().times(other.matrix()),
    {
        let product = self.checked_mul(&other);
        let r = product.unwrap();
        proof {
            r.lemma_encoding_of_view();
        }
        r
    }
}

impl core::ops::MulAssign for PathIdentifier {
    /// Replaces this identifier by that of `old(self)@ + other@`, for paths
    /// whose concatenation is encodable.
    fn mul_assign(&mut self, other: PathIdentifier)
        requires
            encodable(old(self)@ + other@),
        ensures
            final(self).wf(),
            final(self)@ == old(self)@ + other@,
            final(self).matrix() == old(self).matrix().times(other.matrix()),
    {
        let product = self.checked_mul(&other);
        *self = product.unwrap();
    }
}

impl vstd::std_specs::convert::TryFromSpecImpl<Vec<u64>> for PathIdentifier {
    open spec fn obeys_try_from_spec() -> bool {
        true
    }

    open spec fn try_from_spec(pieces: Vec<u64>) -> Result<PathIdentifier, PathError> {
        if encodable(pieces@) {
            Ok(PathIdentifier::encoding(pieces@))
        } else {
            Err(PathError::Overflow)
        }
    }
}

impl TryFrom<Vec<u64>> for PathIdentifier {
    type Error = PathError;

    /// The identifier of `pieces`, or the overflow error when `pieces` is
    /// not encodable.
    fn try_from(pieces: Vec<u64>) -> (r: Result<PathIdentifier, PathError>)
        ensures
            r matches Ok(id) ==> id@ == pieces@,
    {
        let r = PathIdentifier::from_path(pieces.as_slice());
        proof {
            if r is Ok {
                r.unwrap().lemma_encoding_of_view();
            }
        }
        r
    }
}

impl core::str::FromStr for PathIdentifier {
    type Err = PathError;

    /// The identifier that the text `s` stands for.
    fn from_str(s: &str) -> (r: Result<PathIdentifier, PathError>)
        ensures
            r == PathIdentifier::of_text(s@),
            r matches Ok(id) ==> id.wf() && Some(id@) == parse_text(s@),
    {
        match parse_path(s) {
            Ok(path) => {
                let r = PathIdentifier::from_path(path.as_slice());
                proof {
                    if r is Ok {
                        r.unwrap().lemma_encoding_of_view();
                    }
                }
                r
            },
            Err(e) => Err(e),
        }
    }
}

impl vstd::std_specs::cmp::PartialEqSpecImpl<(u64, u64, u64, u64)> for PathIdentifier {
    open spec fn obeys_eq_spec() -> bool {
        true
    }

    open spec fn eq_spec(&self, other: &(u64, u64, u64, u64)) -> bool {
        &&& self.matrix().a == other.0
        &&& self.matrix().b == other.1
        &&& self.matrix().c == other.2
        &&& self.matrix().d == other.3
    }
}

impl PartialEq<(u64, u64, u64, u64)> for PathIdentifier {
    /// Whether the entries `(a, b, c, d)` of the matrix are those of `other`.
    fn eq(&self, other: &(u64, u64, u64, u64)) -> (r: bool) {
        self.0 == other.0 && self.1 == other.1 && self.2 == other.2 && self.3 == other.3
    }
}

impl Clone for PathIdentifier {
    fn clone(&self) -> (r: PathIdentifier)
        ensures
            r == *self,
    {
        proof {
            use_type_invariant(self);
        }
        PathIdentifier(self.0, self.1, self.2, self.3)
    }
}

} // verus!
