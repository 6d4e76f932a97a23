//! Field conversion: the `FromField` capability that the pair parser is
//! generic over, and verified decimal implementations for `i64` and `u64`.

use vstd::prelude::*;
use crate::text::is_whitespace_char;
use crate::text::ltrim;
use crate::text::rtrim;
use crate::text::trim_spec;

verus! {

/// A type whose values can be read from one trimmed field of a coordinate
/// pair. `from_field_spec` is the mathematical description of the
/// conversion; `from_field` decides it.
pub trait FromField: Sized {
    /// The value that this type reads from the field `s`, if any.
    spec fn from_field_spec(s: Seq<char>) -> Option<Self>;

    /// Read a value from the field `s`.
    fn from_field(s: &str) -> (r: Option<Self>)
        ensures
            r == Self::from_field_spec(s@),
    ;
}

/// A decimal digit `'0'..='9'`.
pub open spec fn is_digit_char(c: char) -> bool {
    48 <= c as u32 && c as u32 <= 57
}

/// The numeric value of a decimal digit.
pub open spec fn digit_val(c: char) -> int {
    c as u32 - 48
}

/// Every character of `s` is a decimal digit.
pub open spec fn all_digit_chars(s: Seq<char>) -> bool {
    forall|i: int| 0 <= i < s.len() ==> is_digit_char(s[i])
}

/// The value of a sequence of decimal digits, most significant first.
pub open spec fn digits_val(s: Seq<char>) -> int
    decreases s.len(),
{
    if s.len() == 0 {
        0
    } else {
        digits_val(s.drop_last()) * 10 + digit_val(s.last())
    }
}

/// A digit string has a non-negative value.
proof fn lemma_digits_val_nonneg(s: Seq<char>)
    requires
        all_digit_chars(s),
    ensures
        digits_val(s) >= 0,
    decreases s.len(),
{
    if s.len() > 0 {
        assert(all_digit_chars(s.drop_last()));
        lemma_digits_val_nonneg(s.drop_last());
    }
}

/// Reading one more digit multiplies the prefix value by ten and adds it.
proof fn lemma_digits_val_take_succ(s: Seq<char>, k: int)
    requires
        0 <= k < s.len(),
    ensures
        digits_val(s.take(k + 1)) == digits_val(s.take(k)) * 10 + digit_val(s[k]),
{
    let t = s.take(k + 1);
    assert(t.drop_last() =~= s.take(k));
    assert(t.last() == s[k]);
}

/// The value of a digit string is at least the value of any of its prefixes.
proof fn lemma_digits_val_take_le(s: Seq<char>, k: int)
    requires
        all_digit_chars(s),
        0 <= k <= s.len(),
    ensures
        digits_val(s.take(k)) <= digits_val(s),
    decreases s.len() - k,
{
    if k == s.len() {
        assert(s.take(k) =~= s);
    } else {
        assert(all_digit_chars(s.take(k)));
        lemma_digits_val_nonneg(s.take(k));
        lemma_digits_val_take_succ(s, k);
        lemma_digits_val_take_le(s, k + 1);
    }
}

/// The value read from the digit part `d` of a signed field: `None` unless
/// `d` is one or more digits whose (possibly negated) value fits in `i64`.
pub open spec fn signed_field_spec(neg: bool, d: Seq<char>) -> Option<i64> {
    if d.len() == 0 || !all_digit_chars(d) {
        None
    } else {
        let v = if neg {
            -digits_val(d)
        } else {
            digits_val(d)
        };
        if i64::MIN <= v <= i64::MAX {
            Some(v as i64)
        } else {
            None
        }
    }
}

/// The value read from the digit part `d` of an unsigned field: `None`
/// unless `d` is one or more digits whose value fits in `u64`.
pub open spec fn unsigned_field_spec(d: Seq<char>) -> Option<u64> {
    if d.len() == 0 || !all_digit_chars(d) {
        None
    } else if digits_val(d) <= u64::MAX {
        Some(digits_val(d) as u64)
    } else {
        None
    }
}

impl FromField for i64 {
    /// An optional `+` or `-` sign followed by one or more decimal digits,
    /// whose value fits in `i64`.
    open spec fn from_field_spec(s: Seq<char>) -> Option<i64> {
        if s.len() > 0 && (s[0] == '+' || s[0] == '-') {
            signed_field_spec(s[0] == '-', s.skip(1))
        } else {
            signed_field_spec(false, s)
        }
    }

    fn from_field(s: &str) -> (r: Option<i64>) {
        let n = s.unicode_len();
        let mut start: usize = 0;
        let mut neg: bool = false;
        if n > 0 {
            let c0 = s.get_char(0);
            if c0 == '-' {
                neg = true;
                start = 1;
            } else if c0 == '+' {
                start = 1;
            }
        }
        proof {
            if start == 0 {
                assert(s@.skip(0) =~= s@);
            }
        }
        if start == n {
            return None;
        }
        let ghost d = s@.skip(start as int);
        proof {
            assert(<i64 as FromField>::from_field_spec(s@) == signed_field_spec(neg, d));
        }
        let bound: u64 = if neg {
            9223372036854775808u64
        } else {
            9223372036854775807u64
        };
        let mut acc: u64 = 0;
        let mut i: usize = start;
        while i < n
            invariant
                n == s@.len(),
                start <= i <= n,
                start < n,
                d == s@.skip(start as int),
                <i64 as FromField>::from_field_spec(s@) == signed_field_spec(neg, d),
                all_digit_chars(d.take(i - start)),
                acc as int == digits_val(d.take(i - start)),
                acc <= bound,
                bound == (if neg {
                    9223372036854775808u64
                } else {
                    9223372036854775807u64
                }),
            decreases n - i,
        {
            let c = s.get_char(i);
            let u = c as u32;
            if u < 48 || u > 57 {
                proof {
                    assert(d[i - start] == s@[i as int]);
                    assert(!is_digit_char(d[i - start]));
                    assert(!all_digit_chars(d));
                }
                return None;
            }
            let digit: u64 = (u - 48) as u64;
            let next: u128 = acc as u128 * 10 + digit as u128;
            proof {
                assert(d[i - start] == s@[i as int]);
                lemma_digits_val_take_succ(d, i - start);
                assert(digits_val(d.take(i - start + 1)) == next as int);
            }
            if next > bound as u128 {
                proof {
                    if all_digit_chars(d) {
                        lemma_digits_val_take_le(d, i - start + 1);
                        assert(digits_val(d) > bound as int);
                    }
                }
                return None;
            }
            acc = next as u64;
            i += 1;
        }
        proof {
            assert(d.take(n - start) =~= d);
        }
        if neg {
            if acc == 9223372036854775808u64 {
                Some(i64::MIN)
            } else {
                Some(-(acc as i64))
            }
        } else {
            Some(acc as i64)
        }
    }
}

impl FromField for u64 {
    /// An optional `+` sign followed by one or more decimal digits, whose
    /// value fits in `u64`.
    open spec fn from_field_spec(s: Seq<char>) -> Option<u64> {
        if s.len() > 0 && s[0] == '+' {
            unsigned_field_spec(s.skip(1))
        } else {
            unsigned_field_spec(s)
        }
    }

    fn from_field(s: &str) -> (r: Option<u64>) {
        let n = s.unicode_len();
        let mut start: usize = 0;
        if n > 0 && s.get_char(0) == '+' {
            start = 1;
        }
        proof {
            if start == 0 {
                assert(s@.skip(0) =~= s@);
            }
        }
        if start == n {
            return None;
        }
        let ghost d = s@.skip(start as int);
        proof {
            assert(<u64 as FromField>::from_field_spec(s@) == unsigned_field_spec(d));
        }
        let mut acc: u64 = 0;
        let mut i: usize = start;
        while i < n
            invariant
                n == s@.len(),
                start <= i <= n,
                start < n,
                d == s@.skip(start as int),
                <u64 as FromField>::from_field_spec(s@) == unsigned_field_spec(d),
                all_digit_chars(d.take(i - start)),
                acc as int == digits_val(d.take(i - start)),
                acc <= u64::MAX,
            decreases n - i,
        {
            let c = s.get_char(i);
            let u = c as u32;
            if u < 48 || u > 57 {
                proof {
                    assert(d[i - start] == s@[i as int]);
                    assert(!is_digit_char(d[i - start]));
                    assert(!all_digit_chars(d));
                }
                return None;
            }
            let digit: u64 = (u - 48) as u64;
            let next: u128 = acc as u128 * 10 + digit as u128;
            proof {
                assert(d[i - start] == s@[i as int]);
                lemma_digits_val_take_succ(d, i - start);
                assert(digits_val(d.take(i - start + 1)) == next as int);
            }
            if next > u64::MAX as u128 {
                proof {
                    if all_digit_chars(d) {
                        lemma_digits_val_take_le(d, i - start + 1);
                        assert(digits_val(d) > u64::MAX as int);
                    }
                }
                return None;
            }
            acc = next as u64;
            i += 1;
        }
        proof {
            assert(d.take(n - start) =~= d);
        }
        Some(acc)
    }
}

/// The decimal digit character for `n`.
pub open spec fn digit_char_of(n: int) -> char
    recommends
        0 <= n <= 9,
{
    (n + 48) as char
}

/// The decimal rendering of a non-negative integer: one or more digits,
/// most significant first, with no sign and no leading zero except for the
/// value zero itself.
pub open spec fn render_nat(n: int) -> Seq<char>
    recommends
        n >= 0,
    decreases n,
{
    if n <= 9 {
        seq![digit_char_of(n)]
    } else {
        render_nat(n / 10).push(digit_char_of(n % 10))
    }
}

/// The textual form of an `i64`: a minus sign for negative values, then
/// decimal digits.
pub open spec fn render_i64(a: i64) -> Seq<char> {
    if a >= 0 {
        render_nat(a as int)
    } else {
        seq!['-'] + render_nat(-(a as int))
    }
}

/// The textual form of a `u64`: decimal digits.
pub open spec fn render_u64(a: u64) -> Seq<char> {
    render_nat(a as int)
}

/// The decimal rendering of `n >= 0` is a nonempty digit string whose value
/// is `n`.
pub proof fn lemma_render_nat_digits(n: int)
    requires
        n >= 0,
    ensures
        render_nat(n).len() >= 1,
        all_digit_chars(render_nat(n)),
        digits_val(render_nat(n)) == n,
    decreases n,
{
    if n <= 9 {
        let s = seq![digit_char_of(n)];
        assert(s.drop_last() =~= Seq::<char>::empty());
        assert(digits_val(Seq::<char>::empty()) == 0);
    } else {
        lemma_render_nat_digits(n / 10);
        let r = render_nat(n / 10);
        let s = r.push(digit_char_of(n % 10));
        assert(s.drop_last() =~= r);
        assert(s.last() == digit_char_of(n % 10));
        assert forall|i: int| 0 <= i < s.len() implies is_digit_char(s[i]) by {
            if i < r.len() {
                assert(s[i] == r[i]);
            }
        }
    }
}

/// Reading back the textual form of an `i64` yields the value itself.
pub proof fn lemma_i64_round_trip(a: i64)
    ensures
        <i64 as FromField>::from_field_spec(render_i64(a)) == Some(a),
{
    if a >= 0 {
        lemma_render_nat_digits(a as int);
        let s = render_nat(a as int);
        assert(is_digit_char(s[0]));
        assert(s[0] != '+' && s[0] != '-');
    } else {
        lemma_render_nat_digits(-(a as int));
        let r = render_nat(-(a as int));
        let s = seq!['-'] + r;
        assert(s[0] == '-');
        assert(s.skip(1) =~= r);
    }
}

/// Reading back the textual form of a `u64` yields the value itself.
pub proof fn lemma_u64_round_trip(a: u64)
    ensures
        <u64 as FromField>::from_field_spec(render_u64(a)) == Some(a),
{
    lemma_render_nat_digits(a as int);
    let s = render_nat(a as int);
    assert(is_digit_char(s[0]));
    assert(s[0] != '+');
}

/// A rendered integer carries no whitespace at either end, so trimming
/// leaves it unchanged.
pub proof fn lemma_render_i64_trim(a: i64)
    ensures
        trim_spec(render_i64(a)) == render_i64(a),
{
    let s = render_i64(a);
    if a >= 0 {
        lemma_render_nat_digits(a as int);
        assert(is_digit_char(s[0]));
        assert(is_digit_char(s[s.len() - 1]));
    } else {
        let r = render_nat(-(a as int));
        lemma_render_nat_digits(-(a as int));
        assert(s[0] == '-');
        assert(s[s.len() - 1] == r[r.len() - 1]);
        assert(is_digit_char(r[r.len() - 1]));
    }
    assert(!is_whitespace_char(s[0]));
    assert(!is_whitespace_char(s[s.len() - 1]));
    assert(ltrim(s) == s);
    assert(rtrim(s) == s);
}

/// A rendered `u64` carries no whitespace at either end, so trimming leaves
/// it unchanged.
pub proof fn lemma_render_u64_trim(a: u64)
    ensures
        trim_spec(render_u64(a)) == render_u64(a),
{
    let s = render_u64(a);
    lemma_render_nat_digits(a as int);
    assert(is_digit_char(s[0]));
    assert(is_digit_char(s[s.len() - 1]));
    assert(!is_whitespace_char(s[0]));
    assert(!is_whitespace_char(s[s.len() - 1]));
    assert(ltrim(s) == s);
    assert(rtrim(s) == s);
}

} // verus!
