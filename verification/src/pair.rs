//! The pair parser: split a delimited string at the first occurrence of a
//! separator, trim both fields, and convert each to the requested type.

use vstd::prelude::*;
use crate::field::FromField;
use crate::field::lemma_i64_round_trip;
use crate::field::lemma_render_i64_trim;
use crate::field::lemma_render_u64_trim;
use crate::field::lemma_u64_round_trip;
use crate::field::render_i64;
use crate::field::render_u64;
use crate::text::all_whitespace_chars;
use crate::text::find_char;
use crate::text::lemma_trim_surrounding;
use crate::text::trim_spec;
use crate::text::trim_str;

verus! {

/// The two trimmed fields of `s` around the first occurrence of `sep`, or
/// `None` when `sep` does not occur in `s`.
pub open spec fn split_spec(s: Seq<char>, sep: char) -> Option<(Seq<char>, Seq<char>)> {
    match s.index_of_first(sep) {
        Some(i) => Some((trim_spec(s.take(i)), trim_spec(s.skip(i + 1)))),
        None => None,
    }
}

/// The pair of `T` values that `s` holds around the first occurrence of
/// `sep`: `None` when `sep` does not occur, or when either trimmed field
/// fails to convert.
pub open spec fn pair_spec<T: FromField>(s: Seq<char>, sep: char) -> Option<(T, T)> {
    match split_spec(s, sep) {
        Some(p) => match (T::from_field_spec(p.0), T::from_field_spec(p.1)) {
            (Some(x), Some(y)) => Some((x, y)),
            _ => None,
        },
        None => None,
    }
}

/// Split `s` at the first occurrence of `separator` and trim whitespace from
/// both fields. This is the structural half of `parse_pair`, for callers
/// whose field type lives outside this library.
pub fn split_pair(s: &str, separator: char) -> (r: Option<(String, String)>)
    ensures
        match r {
            Some(p) => split_spec(s@, separator) == Some((p.0@, p.1@)),
            None => split_spec(s@, separator) is None,
        },
{
    match find_char(s, separator) {
        None => None,
        Some(i) => {
            let n = s.unicode_len();
            proof {
                s@.index_of_first_ensures(separator);
            }
            let left = s.substring_char(0, i);
            let right = s.substring_char(i + 1, n);
            let lt = trim_str(left);
            let rt = trim_str(right);
            proof {
                assert(left@ =~= s@.take(i as int));
                assert(right@ =~= s@.skip(i + 1));
            }
            Some((String::from_str(lt), String::from_str(rt)))
        },
    }
}

/// Parse the string `s` as a coordinate pair: `s` must have the form
/// `<left><sep><right>`, where `<sep>` is the first occurrence of
/// `separator` and both fields, after trimming, convert to `T`. Returns
/// `Some((left, right))` exactly when the whole of `s` has that form, and
/// `None` otherwise — whether the separator is missing or a conversion
/// fails.
pub fn parse_pair<T: FromField>(s: &str, separator: char) -> (r: Option<(T, T)>)
    ensures
        r == pair_spec::<T>(s@, separator),
{
    match split_pair(s, separator) {
        None => None,
        Some(p) => {
            let (l, rt) = p;
            match (T::from_field(l.as_str()), T::from_field(rt.as_str())) {
                (Some(x), Some(y)) => Some((x, y)),
                _ => None,
            }
        },
    }
}

/// A string in which the separator never occurs yields no pair.
pub proof fn lemma_missing_separator_fails<T: FromField>(s: Seq<char>, sep: char)
    requires
        forall|i: int| 0 <= i < s.len() ==> s[i] != sep,
    ensures
        pair_spec::<T>(s, sep) is None,
{
    s.index_of_first_ensures(sep);
    assert(!s.contains(sep));
}

/// Splitting `l + sep + r` at `sep`, when `sep` occurs nowhere in `l`,
/// yields exactly the trimmed `l` and the trimmed `r`.
pub proof fn lemma_split_of_join(l: Seq<char>, r: Seq<char>, sep: char)
    requires
        !l.contains(sep),
    ensures
        split_spec(l + seq![sep] + r, sep) == Some((trim_spec(l), trim_spec(r))),
{
    let s = l + seq![sep] + r;
    let i0 = l.len() as int;
    assert(s[i0] == sep);
    assert(s.contains(sep));
    s.index_of_first_ensures(sep);
    let idx = s.index_of_first(sep)->Some_0;
    if idx < i0 {
        assert(s[idx] == l[idx]);
        assert(l.contains(sep));
    }
    if idx > i0 {
        assert(s[i0] != sep);
    }
    assert(idx == i0);
    assert(s.take(i0) =~= l);
    assert(s.skip(i0 + 1) =~= r);
}

/// The pair parser is insensitive to whitespace surrounding each field:
/// padding the two fields of `l + sep + r` with whitespace that holds no
/// occurrence of the separator leaves the parsed pair unchanged.
pub proof fn lemma_pair_whitespace_insensitive<T: FromField>(
    l: Seq<char>,
    r: Seq<char>,
    w1: Seq<char>,
    w2: Seq<char>,
    w3: Seq<char>,
    w4: Seq<char>,
    sep: char,
)
    requires
        all_whitespace_chars(w1),
        all_whitespace_chars(w2),
        all_whitespace_chars(w3),
        all_whitespace_chars(w4),
        !l.contains(sep),
        !w1.contains(sep),
        !w2.contains(sep),
    ensures
        pair_spec::<T>((w1 + l + w2) + seq![sep] + (w3 + r + w4), sep) == pair_spec::<T>(
            l + seq![sep] + r,
            sep,
        ),
{
    let lw = w1 + l + w2;
    assert(!lw.contains(sep)) by {
        if lw.contains(sep) {
            let i = choose|i: int| 0 <= i < lw.len() && lw[i] == sep;
            if i < w1.len() {
                assert(w1[i] == sep);
            } else if i < w1.len() + l.len() {
                assert(l[i - w1.len()] == sep);
            } else {
                assert(w2[i - w1.len() - l.len()] == sep);
            }
        }
    }
    lemma_split_of_join(lw, w3 + r + w4, sep);
    lemma_split_of_join(l, r, sep);
    lemma_trim_surrounding(w1, l, w2);
    lemma_trim_surrounding(w3, r, w4);
}

/// Round trip for `i64` fields: rendering two values and joining them with
/// a separator that occurs in neither rendering parses back to the same two
/// values.
pub proof fn lemma_pair_round_trip_i64(a: i64, b: i64, sep: char)
    requires
        !render_i64(a).contains(sep),
        !render_i64(b).contains(sep),
    ensures
        pair_spec::<i64>(render_i64(a) + seq![sep] + render_i64(b), sep) == Some((a, b)),
{
    lemma_split_of_join(render_i64(a), render_i64(b), sep);
    lemma_render_i64_trim(a);
    lemma_render_i64_trim(b);
    lemma_i64_round_trip(a);
    lemma_i64_round_trip(b);
}

/// Round trip for `u64` fields: rendering two values and joining them with
/// a separator that occurs in neither rendering parses back to the same two
/// values.
pub proof fn lemma_pair_round_trip_u64(a: u64, b: u64, sep: char)
    requires
        !render_u64(a).contains(sep),
        !render_u64(b).contains(sep),
    ensures
        pair_spec::<u64>(render_u64(a) + seq![sep] + render_u64(b), sep) == Some((a, b)),
{
    lemma_split_of_join(render_u64(a), render_u64(b), sep);
    lemma_render_u64_trim(a);
    lemma_render_u64_trim(b);
    lemma_u64_round_trip(a);
    lemma_u64_round_trip(b);
}

/// The pair parser is pure: its contract pins the result to a function of
/// the input string and the separator alone, so any two results obtained
/// for the same input are equal.
pub proof fn lemma_parse_pair_deterministic<T: FromField>(
    s: Seq<char>,
    sep: char,
    r1: Option<(T, T)>,
    r2: Option<(T, T)>,
)
    requires
        r1 == pair_spec::<T>(s, sep),
        r2 == pair_spec::<T>(s, sep),
    ensures
        r1 == r2,
{
}

} // verus!
