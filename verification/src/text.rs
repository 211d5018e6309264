//! The textual form of a path: its elements in decimal, separated by dots.
//! The empty text stands for the root.

use crate::error::PathError;
use vstd::prelude::*;
use vstd::std_specs::iter::IteratorSpec;
use vstd::string::StringExecFns;

verus! {

/// The character that separates the components of a text.
pub const SEPARATOR: char = '.';

/// Whether `c` is a decimal digit.
pub open spec fn is_digit(c: char) -> bool {
    '0' <= c <= '9'
}

/// The number that the digit `c` stands for.
pub open spec fn digit_value(c: char) -> nat
    recommends
        is_digit(c),
{
    (c as int - '0' as int) as nat
}

/// The digit that stands for `d`.
pub open spec fn digit_char(d: nat) -> char
    recommends
        d < 10,
{
    ('0' as nat + d) as char
}

/// Whether `s` holds decimal digits only.
pub open spec fn all_digits(s: Seq<char>) -> bool {
    forall|i: int| 0 <= i < s.len() ==> is_digit(#[trigger] s[i])
}

/// The number that a string of digits stands for, leading zeros allowed. The
/// empty string stands for zero.
pub open spec fn digits_value(s: Seq<char>) -> nat
    decreases s.len(),
{
    if s.len() == 0 {
        0
    } else {
        digits_value(s.drop_last()) * 10 + digit_value(s.last())
    }
}

/// The decimal numeral of `n`, without leading zeros.
pub open spec fn numeral(n: nat) -> Seq<char>
    decreases n,
{
    if n < 10 {
        seq![digit_char(n)]
    } else {
        numeral(n / 10).push(digit_char(n % 10))
    }
}

/// The digits of a component: the component without its sign, where it has
/// one.
pub open spec fn unsigned_part(component: Seq<char>) -> Seq<char> {
    if component.len() > 0 && component[0] == '+' {
        component.drop_first()
    } else {
        component
    }
}

/// The path element that one component of a text stands for: an optional
/// `+`, then at least one decimal digit, the number being a value of `u64`.
/// Anything else stands for nothing.
pub open spec fn component_value(component: Seq<char>) -> Option<u64> {
    let digits = unsigned_part(component);
    if digits.len() > 0 && all_digits(digits) && digits_value(digits) <= u64::MAX {
        Some(digits_value(digits) as u64)
    } else {
        None
    }
}

/// The components of a text: the stretches between its separators. A text
/// with `n` separators has `n + 1` components, some of which may be empty.
pub open spec fn components(text: Seq<char>) -> Seq<Seq<char>>
    decreases text.len(),
{
    if text.len() == 0 {
        seq![Seq::empty()]
    } else {
        let before = components(text.drop_last());
        if text.last() == SEPARATOR {
            before.push(Seq::empty())
        } else {
            before.drop_last().push(before.last().push(text.last()))
        }
    }
}

/// The components joined by separators.
pub open spec fn join(parts: Seq<Seq<char>>) -> Seq<char>
    decreases parts.len(),
{
    if parts.len() == 0 {
        Seq::empty()
    } else if parts.len() == 1 {
        parts[0]
    } else {
        join(parts.drop_last()).push(SEPARATOR) + parts.last()
    }
}

/// The path that a text stands for. The empty text stands for the empty
/// path; any other text stands for a path when each of its components
/// stands for an element.
pub open spec fn parse_text(text: Seq<char>) -> Option<Seq<u64>> {
    let parts = components(text);
    if text.len() == 0 {
        Some(Seq::empty())
    } else if forall|i: int| 0 <= i < parts.len() ==> component_value(#[trigger] parts[i]) is Some {
        Some(Seq::new(parts.len(), |i: int| component_value(parts[i]).unwrap()))
    } else {
        None
    }
}

/// The numerals of the elements of a path.
pub open spec fn numerals(path: Seq<u64>) -> Seq<Seq<char>> {
    Seq::new(path.len(), |i: int| numeral(path[i] as nat))
}

/// The canonical text of a path: the numerals of its elements, joined by
/// separators.
pub open spec fn path_text(path: Seq<u64>) -> Seq<char> {
    join(numerals(path))
}

/// Whether a beginning of a component can still grow into a component that
/// stands for an element: an optional `+`, then digits whose number is a
/// value of `u64`.
pub open spec fn viable(prefix: Seq<char>) -> bool {
    all_digits(unsigned_part(prefix)) && digits_value(unsigned_part(prefix)) <= u64::MAX
}

/// More digits never make a smaller number.
pub proof fn lemma_digits_value_grows(x: Seq<char>, y: Seq<char>)
    requires
        x.is_prefix_of(y),
    ensures
        digits_value(x) <= digits_value(y),
    decreases y.len(),
{
    if x.len() == y.len() {
        assert(x =~= y);
    } else {
        assert(x.is_prefix_of(y.drop_last()));
        lemma_digits_value_grows(x, y.drop_last());
    }
}

/// A component that stands for an element has only viable beginnings.
pub proof fn lemma_beginnings_viable(prefix: Seq<char>, component: Seq<char>)
    requires
        prefix.is_prefix_of(component),
        component_value(component) is Some,
    ensures
        viable(prefix),
{
    let ds = unsigned_part(prefix);
    let cds = unsigned_part(component);
    if prefix.len() > 0 {
        assert(prefix[0] == component[0]);
        assert(ds.is_prefix_of(cds));
        assert forall|i: int| 0 <= i < ds.len() implies is_digit(#[trigger] ds[i]) by {
            assert(ds[i] == cds[i]);
        }
        lemma_digits_value_grows(ds, cds);
    }
}

/// Reading on never changes the components that a separator has closed, and
/// only lengthens the last one.
pub proof fn lemma_components_extend(x: Seq<char>, y: Seq<char>)
    ensures
        1 <= components(x).len() <= components(x + y).len(),
        forall|i: int|
            0 <= i < components(x).len() - 1 ==> #[trigger] components(x + y)[i] == components(
                x,
            )[i],
        components(x).last().is_prefix_of(components(x + y)[components(x).len() - 1]),
    decreases y.len(),
{
    if y.len() == 0 {
        assert(x + y =~= x);
        lemma_components_nonempty(x);
    } else {
        assert((x + y).drop_last() =~= x + y.drop_last());
        lemma_components_extend(x, y.drop_last());
    }
}

/// Every text has at least one component.
pub proof fn lemma_components_nonempty(text: Seq<char>)
    ensures
        components(text).len() >= 1,
    decreases text.len(),
{
    if text.len() > 0 {
        lemma_components_nonempty(text.drop_last());
    }
}

/// Once the component being read is no longer viable, the text stands for
/// no path, however it goes on.
proof fn lemma_rejected(seen: Seq<char>, rest: Seq<char>)
    requires
        !viable(components(seen).last()),
    ensures
        parse_text(seen + rest) is None,
{
    let k = components(seen).len() - 1;
    lemma_components_extend(seen, rest);
    lemma_components_nonempty(seen);
    if component_value(components(seen + rest)[k]) is Some {
        lemma_beginnings_viable(components(seen).last(), components(seen + rest)[k]);
    }
    if seen.len() == 0 {
        assert(components(seen).last() =~= Seq::<char>::empty());
    }
}

/// Once a separator has closed a component that stands for no element, the
/// text stands for no path, however it goes on.
proof fn lemma_rejected_closed(seen: Seq<char>, rest: Seq<char>, k: int)
    requires
        0 <= k < components(seen).len() - 1,
        component_value(components(seen)[k]) is None,
    ensures
        parse_text(seen + rest) is None,
{
    lemma_components_extend(seen, rest);
    assert(components(seen + rest)[k] == components(seen)[k]);
    if seen.len() == 0 {
        assert(components(seen).len() == 1);
    }
}

/// The path that `text` stands for, or the parse error when it stands for
/// none.
pub fn parse_path(text: &str) -> (r: Result<Vec<u64>, PathError>)
    ensures
        r is Ok <==> parse_text(text@) is Some,
        r matches Ok(path) ==> Some(path@) == parse_text(text@),
        r matches Err(e) ==> e == PathError::Parse,
{
    broadcast use vstd::string::group_string_axioms;

    let mut path: Vec<u64> = Vec::new();
    if text.is_empty() {
        return Ok(path);
    }
    let mut signed = false;
    let mut has_digit = false;
    let mut value: u64 = 0;
    let mut chars = text.chars();
    let ghost mut seen: Seq<char> = Seq::empty();
    loop
        invariant
            text@.len() > 0,
            seen + chars.remaining() == text@,
            chars.obeys_prophetic_iter_laws(),
            chars.decrease() is Some,
            path@.len() == components(seen).len() - 1,
            forall|i: int|
                0 <= i < path@.len() ==> component_value(#[trigger] components(seen)[i]) == Some(
                    path@[i],
                ),
            signed == (components(seen).last().len() > 0 && components(seen).last()[0] == '+'),
            has_digit == (unsigned_part(components(seen).last()).len() > 0),
            all_digits(unsigned_part(components(seen).last())),
            digits_value(unsigned_part(components(seen).last())) == value,
        decreases chars.decrease()->0,
    {
        let ghost rest = chars.remaining();
        let ghost current = components(seen).last();
        proof {
            lemma_components_nonempty(seen);
        }
        match chars.next() {
            Some(c) => {
                proof {
                    assert(seen.push(c).drop_last() =~= seen);
                    assert(seen.push(c) + chars.remaining() =~= seen + rest);
                }
                if c == SEPARATOR {
                    if !has_digit {
                        proof {
                            lemma_rejected_closed(
                                seen.push(c),
                                chars.remaining(),
                                components(seen).len() - 1,
                            );
                        }
                        return Err(PathError::Parse);
                    }
                    path.push(value);
                    signed = false;
                    has_digit = false;
                    value = 0;
                    proof {
                        assert(unsigned_part(Seq::<char>::empty()) =~= Seq::<char>::empty());
                    }
                } else if '0' <= c && c <= '9' {
                    let digit: u64 = (c as u32 - '0' as u32) as u64;
                    proof {
                        assert(unsigned_part(current.push(c)) =~= unsigned_part(current).push(c));
                        assert(unsigned_part(current).push(c).drop_last() =~= unsigned_part(
                            current,
                        ));
                    }
                    let grown = match value.checked_mul(10) {
                        Some(tens) => tens.checked_add(digit),
                        None => None,
                    };
                    match grown {
                        Some(v) => {
                            value = v;
                            has_digit = true;
                        },
                        None => {
                            proof {
                                lemma_rejected(seen.push(c), chars.remaining());
                            }
                            return Err(PathError::Parse);
                        },
                    }
                } else if c == '+' && !signed && !has_digit {
                    signed = true;
                    proof {
                        assert(current =~= Seq::<char>::empty());
                        assert(unsigned_part(current.push(c)) =~= Seq::<char>::empty());
                    }
                } else {
                    proof {
                        let grown = current.push(c);
                        if current.len() == 0 {
                            assert(unsigned_part(grown)[0] == c);
                        } else if signed {
                            assert(unsigned_part(grown)[current.len() - 1] == c);
                        } else {
                            assert(unsigned_part(grown)[current.len() as int] == c);
                        }
                        lemma_rejected(seen.push(c), chars.remaining());
                    }
                    return Err(PathError::Parse);
                }
                proof {
                    seen = seen.push(c);
                }
            },
            None => {
                proof {
                    assert(seen + rest =~= seen);
                }
                if !has_digit {
                    return Err(PathError::Parse);
                }
                path.push(value);
                proof {
                    let parts = components(text@);
                    let values = Seq::new(parts.len(), |i: int| component_value(parts[i]).unwrap());
                    assert(path@ =~= values);
                }
                return Ok(path);
            },
        }
    }
}

/// The one-character text of a digit.
fn digit_str(d: u64) -> (s: &'static str)
    requires
        d < 10,
    ensures
        s@ == seq![digit_char(d as nat)],
{
    proof {
        reveal_strlit("0");
        reveal_strlit("1");
        reveal_strlit("2");
        reveal_strlit("3");
        reveal_strlit("4");
        reveal_strlit("5");
        reveal_strlit("6");
        reveal_strlit("7");
        reveal_strlit("8");
        reveal_strlit("9");
    }
    let s = match d {
        0 => "0",
        1 => "1",
        2 => "2",
        3 => "3",
        4 => "4",
        5 => "5",
        6 => "6",
        7 => "7",
        8 => "8",
        _ => "9",
    };
    assert(s@ =~= seq![digit_char(d as nat)]);
    s
}

/// Appends the numeral of `n` to `out`.
fn append_numeral(out: &mut String, n: u64)
    ensures
        final(out)@ == old(out)@ + numeral(n as nat),
    decreases n,
{
    if n >= 10 {
        append_numeral(out, n / 10);
    }
    out.append(digit_str(n % 10));
    proof {
        assert(out@ =~= old(out)@ + numeral(n as nat));
    }
}

/// The canonical text of `path`.
pub fn format_path(path: &[u64]) -> (text: String)
    ensures
        text@ == path_text(path@),
{
    let mut text = String::new();
    let mut i: usize = 0;
    while i < path.len()
        invariant
            i <= path.len(),
            text@ == path_text(path@.take(i as int)),
        decreases path.len() - i,
    {
        if i > 0 {
            proof {
                reveal_strlit(".");
            }
            text.append(".");
        }
        append_numeral(&mut text, path[i]);
        proof {
            let before = numerals(path@.take(i as int));
            let after = numerals(path@.take(i + 1));
            assert(after.drop_last() =~= before);
            assert(text@ =~= path_text(path@.take(i + 1)));
        }
        i += 1;
    }
    proof {
        assert(path@.take(i as int) =~= path@);
    }
    text
}

} // verus!
