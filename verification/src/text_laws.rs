//! Laws of the textual form: formatting and parsing undo each other.

use crate::text::{
    all_digits, component_value, components, digits_value, join, lemma_components_nonempty,
    numeral, numerals, parse_text, path_text, SEPARATOR,
};
use vstd::prelude::*;

verus! {

/// Whether a component is a canonical numeral: decimal digits that stand
/// for a value of `u64`, without a sign and without leading zeros.
pub open spec fn is_canonical_component(component: Seq<char>) -> bool {
    &&& component.len() > 0
    &&& all_digits(component)
    &&& component.len() == 1 || component[0] != '0'
    &&& digits_value(component) <= u64::MAX
}

/// Whether a text is canonical: empty, or made of canonical numerals.
pub open spec fn is_canonical(text: Seq<char>) -> bool {
    text.len() == 0 || forall|i: int|
        0 <= i < components(text).len() ==> is_canonical_component(#[trigger] components(text)[i])
}

/// Whether a string is free of separators.
pub open spec fn separator_free(s: Seq<char>) -> bool {
    forall|i: int| 0 <= i < s.len() ==> #[trigger] s[i] != SEPARATOR
}

/// The numeral of a number is a non-empty string of digits that stands for
/// the number, and begins with a zero only when the number is zero.
pub proof fn lemma_numeral(n: nat)
    ensures
        numeral(n).len() > 0,
        all_digits(numeral(n)),
        digits_value(numeral(n)) == n,
        numeral(n).len() == 1 || numeral(n)[0] != '0',
    decreases n,
{
    if n < 10 {
        assert(numeral(n).drop_last() =~= Seq::<char>::empty());
        assert(digits_value(numeral(n).drop_last()) == 0);
    } else {
        lemma_numeral(n / 10);
        assert(numeral(n).drop_last() =~= numeral(n / 10));
        assert(numeral(n)[0] == numeral(n / 10)[0]);
        if numeral(n / 10).len() == 1 {
            assert(numeral(n / 10).drop_last() =~= Seq::<char>::empty());
            assert(digits_value(numeral(n / 10).drop_last()) == 0);
        }
    }
}

/// A string of digits that does not begin with a zero stands for a positive
/// number.
proof fn lemma_leading_digit(s: Seq<char>)
    requires
        s.len() > 0,
        all_digits(s),
        s[0] != '0',
    ensures
        digits_value(s) >= 1,
    decreases s.len(),
{
    if s.len() == 1 {
        assert(s.drop_last() =~= Seq::<char>::empty());
        assert(digits_value(s.drop_last()) == 0);
    } else {
        lemma_leading_digit(s.drop_last());
    }
}

/// A canonical numeral is the numeral of the number it stands for.
pub proof fn lemma_numeral_of_value(s: Seq<char>)
    requires
        s.len() > 0,
        all_digits(s),
        s.len() == 1 || s[0] != '0',
    ensures
        numeral(digits_value(s)) == s,
    decreases s.len(),
{
    let front = s.drop_last();
    if s.len() == 1 {
        assert(front =~= Seq::<char>::empty());
        assert(digits_value(front) == 0);
        assert(numeral(digits_value(s)) =~= s);
    } else {
        lemma_leading_digit(front);
        lemma_numeral_of_value(front);
        assert(numeral(digits_value(s)) =~= s);
    }
}

/// Joining the components of a text gives the text back.
pub proof fn lemma_join_components(text: Seq<char>)
    ensures
        join(components(text)) == text,
    decreases text.len(),
{
    if text.len() == 0 {
        assert(join(components(text)) =~= text);
    } else {
        let before = components(text.drop_last());
        let parts = components(text);
        lemma_join_components(text.drop_last());
        lemma_components_nonempty(text.drop_last());
        if text.last() == SEPARATOR {
            assert(parts.drop_last() =~= before);
            assert(join(parts) =~= text);
        } else if before.len() == 1 {
            assert(join(before) == before[0]);
            assert(parts[0] == before[0].push(text.last()));
            assert(text =~= text.drop_last().push(text.last()));
        } else {
            assert(parts.drop_last() =~= before.drop_last());
            assert(parts.last() == before.last().push(text.last()));
            assert(join(before) == join(before.drop_last()).push(SEPARATOR) + before.last());
            assert(join(parts) =~= join(before).push(text.last()));
            assert(text =~= text.drop_last().push(text.last()));
        }
    }
}

/// Characters other than the separator lengthen the last component.
pub proof fn lemma_components_append(text: Seq<char>, more: Seq<char>)
    requires
        separator_free(more),
    ensures
        components(text + more) == components(text).drop_last().push(
            components(text).last() + more,
        ),
    decreases more.len(),
{
    lemma_components_nonempty(text);
    if more.len() == 0 {
        assert(text + more =~= text);
        assert(components(text).last() + more =~= components(text).last());
        assert(components(text) =~= components(text).drop_last().push(components(text).last()));
    } else {
        let front = more.drop_last();
        assert((text + more).drop_last() =~= text + front);
        assert(more.last() != SEPARATOR);
        lemma_components_append(text, front);
        assert((components(text).last() + front).push(more.last()) =~= components(text).last()
            + more);
        assert(components(text + more) =~= components(text).drop_last().push(
            components(text).last() + more,
        ));
    }
}

/// The components of joined parts are the parts, where there is at least
/// one part and none holds a separator.
pub proof fn lemma_components_join(parts: Seq<Seq<char>>)
    requires
        parts.len() > 0,
        forall|i: int| 0 <= i < parts.len() ==> separator_free(#[trigger] parts[i]),
    ensures
        components(join(parts)) == parts,
    decreases parts.len(),
{
    let empty = Seq::<char>::empty();
    if parts.len() == 1 {
        lemma_components_append(empty, parts[0]);
        assert(empty + parts[0] =~= parts[0]);
        assert(components(empty) =~= seq![empty]);
        assert(components(join(parts)) =~= parts);
    } else {
        let front = parts.drop_last();
        let closed = join(front).push(SEPARATOR);
        lemma_components_join(front);
        assert(closed.drop_last() =~= join(front));
        assert(components(closed) == front.push(empty));
        lemma_components_append(closed, parts.last());
        assert(empty + parts.last() =~= parts.last());
        assert(components(join(parts)) =~= parts);
    }
}

/// Parsing the canonical text of a path gives the path back.
pub proof fn law_parse_of_text(path: Seq<u64>)
    ensures
        parse_text(path_text(path)) == Some(path),
{
    let parts = numerals(path);
    let text = path_text(path);
    if path.len() == 0 {
        assert(path =~= Seq::<u64>::empty());
    } else {
        assert forall|i: int| 0 <= i < parts.len() implies separator_free(#[trigger] parts[i])
            && component_value(parts[i]) == Some(path[i]) by {
            lemma_numeral(path[i] as nat);
        }
        lemma_components_join(parts);
        assert(text.len() > 0) by {
            lemma_numeral(path[0] as nat);
            if text.len() == 0 {
                assert(components(text) =~= seq![Seq::<char>::empty()]);
            }
        }
        assert(Seq::new(parts.len(), |i: int| component_value(parts[i]).unwrap()) =~= path);
    }
}

/// The canonical text of a path is canonical.
pub proof fn law_text_canonical(path: Seq<u64>)
    ensures
        is_canonical(path_text(path)),
{
    let parts = numerals(path);
    if path.len() > 0 {
        assert forall|i: int| 0 <= i < parts.len() implies separator_free(#[trigger] parts[i])
            && is_canonical_component(parts[i]) by {
            lemma_numeral(path[i] as nat);
        }
        lemma_components_join(parts);
    }
}

/// A canonical text stands for a path, and is the canonical text of that
/// path.
pub proof fn law_text_of_parse(text: Seq<char>)
    requires
        is_canonical(text),
    ensures
        parse_text(text) is Some,
        path_text(parse_text(text).unwrap()) == text,
{
    let parts = components(text);
    if text.len() == 0 {
        assert(path_text(Seq::<u64>::empty()) =~= text);
    } else {
        assert forall|i: int| 0 <= i < parts.len() implies component_value(#[trigger] parts[i])
            == Some(digits_value(parts[i]) as u64) && numeral(digits_value(parts[i])) == parts[i] by {
            assert(is_canonical_component(parts[i]));
            lemma_numeral_of_value(parts[i]);
        }
        let path = parse_text(text).unwrap();
        assert(numerals(path) =~= parts);
        lemma_join_components(text);
    }
}

/// Formatting what a text stands for normalizes the text: the result is
/// canonical and stands for the same path.
pub proof fn law_text_normalized(text: Seq<char>)
    requires
        parse_text(text) is Some,
    ensures
        is_canonical(path_text(parse_text(text).unwrap())),
        parse_text(path_text(parse_text(text).unwrap())) == parse_text(text),
{
    law_text_canonical(parse_text(text).unwrap());
    law_parse_of_text(parse_text(text).unwrap());
}

} // verus!
