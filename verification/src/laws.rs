//! Laws of path identifiers: encoding and decoding undo each other, distinct
//! paths have distinct identifiers, and order matters.

use crate::error::PathError;
use crate::identifier::PathIdentifier;
use crate::matrix::encodable;
use crate::text::{parse_text, path_text};
use crate::text_laws::{is_canonical, law_parse_of_text, law_text_of_parse};
use vstd::prelude::*;

verus! {

/// Round trip: the identifier of an encodable path is well formed, and
/// decoding it gives the path back.
pub proof fn law_round_trip(path: Seq<u64>)
    requires
        encodable(path),
    ensures
        PathIdentifier::encoding(path).wf(),
        PathIdentifier::encoding(path)@ == path,
{
    PathIdentifier::lemma_encoding(path);
}

/// Injectivity: distinct encodable paths have distinct identifiers.
pub proof fn law_injective(p: Seq<u64>, q: Seq<u64>)
    requires
        encodable(p),
        encodable(q),
        p != q,
    ensures
        PathIdentifier::encoding(p) != PathIdentifier::encoding(q),
{
    PathIdentifier::lemma_encoding(p);
    PathIdentifier::lemma_encoding(q);
}

/// Two identifiers are equal exactly when they decode to the same path.
pub proof fn law_equal_iff_same_path(x: PathIdentifier, y: PathIdentifier)
    requires
        x.wf(),
        y.wf(),
    ensures
        x == y <==> x@ == y@,
{
    x.lemma_encoding_of_view();
    y.lemma_encoding_of_view();
}

/// The identifier of the empty path decodes to the empty path, and no other
/// identifier does.
pub proof fn law_root_unique(id: PathIdentifier)
    requires
        id.wf(),
    ensures
        PathIdentifier::encoding(Seq::empty())@ == Seq::<u64>::empty(),
        id@ == Seq::<u64>::empty() <==> id == PathIdentifier::encoding(Seq::empty()),
{
    assert(encodable(Seq::<u64>::empty()));
    PathIdentifier::lemma_encoding(Seq::empty());
    id.lemma_encoding_of_view();
}

/// Order matters: two different orderings of the same elements have
/// different identifiers.
pub proof fn law_order_sensitive(p: Seq<u64>, q: Seq<u64>)
    requires
        encodable(p),
        encodable(q),
        p.to_multiset() == q.to_multiset(),
        p != q,
    ensures
        PathIdentifier::encoding(p) != PathIdentifier::encoding(q),
{
    law_injective(p, q);
}

/// Swapping two different elements changes the identifier.
pub proof fn law_swap_changes(x: u64, y: u64)
    requires
        encodable(seq![x, y]),
        encodable(seq![y, x]),
        x != y,
    ensures
        PathIdentifier::encoding(seq![x, y]) != PathIdentifier::encoding(seq![y, x]),
{
    assert(seq![x, y][0] != seq![y, x][0]);
    law_injective(seq![x, y], seq![y, x]);
}

/// Concatenation does not commute: where two paths joined in one order
/// differ from the two joined in the other, so do the identifiers.
pub proof fn law_concat_order(p: Seq<u64>, q: Seq<u64>)
    requires
        encodable(p + q),
        encodable(q + p),
        p + q != q + p,
    ensures
        PathIdentifier::encoding(p + q) != PathIdentifier::encoding(q + p),
{
    law_injective(p + q, q + p);
}

/// The canonical text of an identifier's path stands for that identifier.
pub proof fn law_text_round_trip(id: PathIdentifier)
    requires
        id.wf(),
    ensures
        PathIdentifier::of_text(path_text(id@)) == Ok::<PathIdentifier, PathError>(id),
{
    law_parse_of_text(id@);
    id.lemma_view();
    id.lemma_encoding_of_view();
}

/// A canonical text that stands for an identifier is the text of that
/// identifier.
pub proof fn law_text_of_identifier(text: Seq<char>)
    requires
        is_canonical(text),
        PathIdentifier::of_text(text) is Ok,
    ensures
        path_text(PathIdentifier::of_text(text).unwrap()@) == text,
{
    law_text_of_parse(text);
    PathIdentifier::lemma_encoding(parse_text(text).unwrap());
}

} // verus!
