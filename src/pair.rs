//! Parsing of `<left><sep><right>` pairs such as `"400x600"` or `"1.0,0.5"`.
use std::str::FromStr;
use vstd::prelude::*;

verus! {

/// `i` is the position of the first `sep` in `s`.
pub open spec fn is_first_index(s: Seq<char>, sep: char, i: int) -> bool {
    &&& 0 <= i < s.len()
    &&& s[i] == sep
    &&& forall|j: int| 0 <= j < i ==> s[j] != sep
}

/// The text before and after the first `sep` in `s`, the separator itself
/// excluded; `None` where `s` holds no `sep`.
pub open spec fn split_at_first(s: Seq<char>, sep: char) -> Option<(Seq<char>, Seq<char>)> {
    if exists|i: int| is_first_index(s, sep, i) {
        let i = choose|i: int| is_first_index(s, sep, i);
        Some((s.subrange(0, i), s.subrange(i + 1, s.len() as int)))
    } else {
        None
    }
}

/// There is at most one first position.
proof fn lemma_first_index_unique(s: Seq<char>, sep: char, i: int, k: int)
    requires
        is_first_index(s, sep, i),
        is_first_index(s, sep, k),
    ensures
        i == k,
{
    if i < k {
        assert(s[i] != sep);
    } else if k < i {
        assert(s[k] != sep);
    }
}

/// Position of the first `sep` in `s`, counted in characters.
pub fn find_separator(s: &str, sep: char) -> (r: Option<usize>)
    ensures
        match r {
            Some(i) => is_first_index(s@, sep, i as int),
            None => forall|j: int| 0 <= j < s@.len() ==> s@[j] != sep,
        },
{
    let n = s.unicode_len();
    let mut i: usize = 0;
    while i < n
        invariant
            n == s@.len(),
            i <= n,
            forall|j: int| 0 <= j < i ==> s@[j] != sep,
        decreases n - i,
    {
        if s.get_char(i) == sep {
            return Some(i);
        }
        i = i + 1;
    }
    None
}

/// Splits `s` at its first `sep` into the text before and the text after.
pub fn split_pair(s: &str, sep: char) -> (r: Option<(&str, &str)>)
    ensures
        match (r, split_at_first(s@, sep)) {
            (Some((left, right)), Some((l, rt))) => left@ == l && right@ == rt,
            (None, None) => true,
            _ => false,
        },
{
    match find_separator(s, sep) {
        None => {
            proof {
                if exists|i: int| is_first_index(s@, sep, i) {
                    let i = choose|i: int| is_first_index(s@, sep, i);
                    assert(s@[i] == sep);
                }
            }
            None
        },
        Some(i) => {
            proof {
                let k = choose|k: int| is_first_index(s@, sep, k);
                lemma_first_index_unique(s@, sep, i as int, k);
            }
            let n = s.unicode_len();
            Some((s.substring_char(0, i), s.substring_char(i + 1, n)))
        },
    }
}

/// Joins the two parsed halves: a pair only where both halves parsed.
pub fn pair_of<T>(left: Option<T>, right: Option<T>) -> (r: Option<(T, T)>)
    ensures
        r == match (left, right) {
            (Some(l), Some(rt)) => Some((l, rt)),
            _ => None,
        },
{
    match (left, right) {
        (Some(l), Some(rt)) => Some((l, rt)),
        _ => None,
    }
}

/// Relies on `FromStr::from_str` of `T`: the value that `s` spells, or an
/// error, which is dropped.
#[verifier::external_body]
fn parse_value<T: FromStr>(s: &str) -> (r: Option<T>) {
    T::from_str(s).ok()
}

/// Parses `s` of the form `<left><separator><right>` into the pair of values
/// that both halves spell in `T`. `None` where `separator` does not occur, or
/// where either half does not parse as a whole.
pub fn parse_pair<T: FromStr>(s: &str, separator: char) -> (r: Option<(T, T)>)
    ensures
        split_at_first(s@, separator) is None ==> r is None,
{
    match split_pair(s, separator) {
        None => None,
        Some((left, right)) => pair_of(parse_value::<T>(left), parse_value::<T>(right)),
    }
}

} // verus!
