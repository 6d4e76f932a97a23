//! Character-level helpers: whitespace classification, locating the first
//! occurrence of a separator, and trimming whitespace from both ends of a
//! string.

use vstd::prelude::*;

verus! {

/// The Unicode code points with the `White_Space` property: exactly the
/// characters that trimming removes from the ends of a field.
pub open spec fn is_whitespace_char(c: char) -> bool {
    let u = c as u32;
    ||| u == 0x09
    ||| u == 0x0A
    ||| u == 0x0B
    ||| u == 0x0C
    ||| u == 0x0D
    ||| u == 0x20
    ||| u == 0x85
    ||| u == 0xA0
    ||| u == 0x1680
    ||| (0x2000 <= u && u <= 0x200A)
    ||| u == 0x2028
    ||| u == 0x2029
    ||| u == 0x202F
    ||| u == 0x205F
    ||| u == 0x3000
}

/// Decide `is_whitespace_char`.
pub fn is_whitespace(c: char) -> (r: bool)
    ensures
        r == is_whitespace_char(c),
{
    let u = c as u32;
    u == 0x09 || u == 0x0A || u == 0x0B || u == 0x0C || u == 0x0D || u == 0x20 || u == 0x85
        || u == 0xA0 || u == 0x1680 || (0x2000 <= u && u <= 0x200A) || u == 0x2028 || u == 0x2029
        || u == 0x202F || u == 0x205F || u == 0x3000
}

/// Index of the first occurrence of `needle` in `s`, if any.
pub fn find_char(s: &str, needle: char) -> (r: Option<usize>)
    ensures
        match r {
            Some(i) => s@.index_of_first(needle) == Some(i as int),
            None => s@.index_of_first(needle) is None,
        },
{
    let n = s.unicode_len();
    let mut i: usize = 0;
    while i < n
        invariant
            n == s@.len(),
            i <= n,
            forall|j: int| 0 <= j < i ==> s@[j] != needle,
        decreases n - i,
    {
        if s.get_char(i) == needle {
            proof {
                s@.index_of_first_ensures(needle);
                assert(s@.contains(needle));
            }
            return Some(i);
        }
        i += 1;
    }
    proof {
        s@.index_of_first_ensures(needle);
        assert(!s@.contains(needle));
    }
    None
}

/// `s` with its leading whitespace removed.
pub open spec fn ltrim(s: Seq<char>) -> Seq<char>
    decreases s.len(),
{
    if s.len() > 0 && is_whitespace_char(s[0]) {
        ltrim(s.skip(1))
    } else {
        s
    }
}

/// `s` with its trailing whitespace removed.
pub open spec fn rtrim(s: Seq<char>) -> Seq<char>
    decreases s.len(),
{
    if s.len() > 0 && is_whitespace_char(s[s.len() - 1]) {
        rtrim(s.take(s.len() - 1))
    } else {
        s
    }
}

/// `s` with whitespace removed from both ends.
pub open spec fn trim_spec(s: Seq<char>) -> Seq<char> {
    rtrim(ltrim(s))
}

/// If the first `k` characters of `s` are whitespace and the next one (if
/// any) is not, then trimming the left end drops exactly those `k`.
proof fn lemma_ltrim_skip(s: Seq<char>, k: int)
    requires
        0 <= k <= s.len(),
        forall|j: int| 0 <= j < k ==> is_whitespace_char(s[j]),
        k == s.len() || !is_whitespace_char(s[k]),
    ensures
        ltrim(s) == s.skip(k),
    decreases k,
{
    if k == 0 {
        assert(s.skip(0) =~= s);
    } else {
        let t = s.skip(1);
        assert forall|j: int| 0 <= j < k - 1 implies is_whitespace_char(t[j]) by {
            assert(t[j] == s[j + 1]);
        }
        assert(k - 1 == t.len() || !is_whitespace_char(t[k - 1]));
        lemma_ltrim_skip(t, k - 1);
        assert(t.skip(k - 1) =~= s.skip(k));
    }
}

/// If the characters of `s` from position `k` on are whitespace and the one
/// before (if any) is not, then trimming the right end keeps exactly the
/// first `k`.
proof fn lemma_rtrim_take(s: Seq<char>, k: int)
    requires
        0 <= k <= s.len(),
        forall|j: int| k <= j < s.len() ==> is_whitespace_char(s[j]),
        k == 0 || !is_whitespace_char(s[k - 1]),
    ensures
        rtrim(s) == s.take(k),
    decreases s.len() - k,
{
    if k == s.len() {
        assert(s.take(k) =~= s);
    } else {
        let t = s.take(s.len() - 1);
        assert(is_whitespace_char(s[s.len() - 1]));
        assert forall|j: int| k <= j < t.len() implies is_whitespace_char(t[j]) by {
            assert(t[j] == s[j]);
        }
        lemma_rtrim_take(t, k);
        assert(t.take(k) =~= s.take(k));
    }
}

/// Every character of `s` is whitespace.
pub open spec fn all_whitespace_chars(s: Seq<char>) -> bool {
    forall|i: int| 0 <= i < s.len() ==> is_whitespace_char(s[i])
}

/// Whitespace prepended to a string is dropped by `ltrim`.
proof fn lemma_ltrim_prepend(w: Seq<char>, t: Seq<char>)
    requires
        all_whitespace_chars(w),
    ensures
        ltrim(w + t) == ltrim(t),
    decreases w.len(),
{
    if w.len() == 0 {
        assert(w + t =~= t);
    } else {
        assert((w + t)[0] == w[0]);
        assert((w + t).skip(1) =~= w.skip(1) + t);
        assert forall|j: int| 0 <= j < w.skip(1).len() implies is_whitespace_char(
            w.skip(1)[j],
        ) by {
            assert(w.skip(1)[j] == w[j + 1]);
        }
        lemma_ltrim_prepend(w.skip(1), t);
    }
}

/// Whitespace appended to a string is dropped by `rtrim`.
proof fn lemma_rtrim_append(t: Seq<char>, w: Seq<char>)
    requires
        all_whitespace_chars(w),
    ensures
        rtrim(t + w) == rtrim(t),
    decreases w.len(),
{
    if w.len() == 0 {
        assert(t + w =~= t);
    } else {
        let s = t + w;
        assert(s[s.len() - 1] == w[w.len() - 1]);
        assert(s.take(s.len() - 1) =~= t + w.take(w.len() - 1));
        let w0 = w.take(w.len() - 1);
        assert forall|j: int| 0 <= j < w0.len() implies is_whitespace_char(#[trigger] w0[j]) by {
            assert(w0[j] == w[j]);
        }
        lemma_rtrim_append(t, w0);
    }
}

/// `ltrim` of an all-whitespace string is empty.
proof fn lemma_ltrim_all_whitespace(s: Seq<char>)
    requires
        all_whitespace_chars(s),
    ensures
        ltrim(s) == Seq::<char>::empty(),
    decreases s.len(),
{
    if s.len() == 0 {
        assert(s =~= Seq::<char>::empty());
    } else {
        assert forall|j: int| 0 <= j < s.skip(1).len() implies is_whitespace_char(
            s.skip(1)[j],
        ) by {
            assert(s.skip(1)[j] == s[j + 1]);
        }
        lemma_ltrim_all_whitespace(s.skip(1));
    }
}

/// When `t` holds some non-whitespace character, `ltrim` stops inside `t`,
/// so a tail after `t` is kept whole.
proof fn lemma_ltrim_keeps_tail(t: Seq<char>, w: Seq<char>)
    requires
        exists|i: int| 0 <= i < t.len() && !is_whitespace_char(t[i]),
    ensures
        ltrim(t + w) == ltrim(t) + w,
    decreases t.len(),
{
    assert((t + w)[0] == t[0]);
    if !is_whitespace_char(t[0]) {
    } else {
        assert((t + w).skip(1) =~= t.skip(1) + w);
        let i = choose|i: int| 0 <= i < t.len() && !is_whitespace_char(t[i]);
        assert(t.skip(1)[i - 1] == t[i]);
        assert(0 <= i - 1 < t.skip(1).len() && !is_whitespace_char(t.skip(1)[i - 1]));
        lemma_ltrim_keeps_tail(t.skip(1), w);
    }
}

/// Whitespace surrounding a field does not change its trimmed form.
pub proof fn lemma_trim_surrounding(w1: Seq<char>, t: Seq<char>, w2: Seq<char>)
    requires
        all_whitespace_chars(w1),
        all_whitespace_chars(w2),
    ensures
        trim_spec(w1 + t + w2) == trim_spec(t),
{
    assert(w1 + t + w2 =~= w1 + (t + w2));
    lemma_ltrim_prepend(w1, t + w2);
    if exists|i: int| 0 <= i < t.len() && !is_whitespace_char(t[i]) {
        lemma_ltrim_keeps_tail(t, w2);
        lemma_rtrim_append(ltrim(t), w2);
    } else {
        assert(all_whitespace_chars(t));
        assert forall|j: int| 0 <= j < (t + w2).len() implies is_whitespace_char(
            (t + w2)[j],
        ) by {
            if j < t.len() {
                assert((t + w2)[j] == t[j]);
            } else {
                assert((t + w2)[j] == w2[j - t.len()]);
            }
        }
        lemma_ltrim_all_whitespace(t + w2);
        lemma_ltrim_all_whitespace(t);
    }
}

/// `s` without leading and trailing whitespace.
pub fn trim_str<'a>(s: &'a str) -> (r: &'a str)
    ensures
        r@ == trim_spec(s@),
{
    let n = s.unicode_len();
    let mut a: usize = 0;
    while a < n && is_whitespace(s.get_char(a))
        invariant
            n == s@.len(),
            a <= n,
            forall|j: int| 0 <= j < a ==> is_whitespace_char(s@[j]),
        decreases n - a,
    {
        a += 1;
    }
    if a == n {
        proof {
            lemma_ltrim_skip(s@, a as int);
            assert(s@.skip(n as int) =~= Seq::<char>::empty());
        }
        let r = s.substring_char(n, n);
        proof {
            assert(r@ =~= Seq::<char>::empty());
        }
        return r;
    }
    let mut b: usize = n;
    while b > a + 1 && is_whitespace(s.get_char(b - 1))
        invariant
            n == s@.len(),
            a < n,
            a + 1 <= b <= n,
            !is_whitespace_char(s@[a as int]),
            forall|j: int| b <= j < n ==> is_whitespace_char(s@[j]),
        decreases b,
    {
        b -= 1;
    }
    let r = s.substring_char(a, b);
    proof {
        lemma_ltrim_skip(s@, a as int);
        let t = s@.skip(a as int);
        assert forall|j: int| b - a <= j < t.len() implies is_whitespace_char(t[j]) by {
            assert(t[j] == s@[j + a]);
        }
        assert(!is_whitespace_char(t[b - a - 1]));
        lemma_rtrim_take(t, b - a);
        assert(t.take(b - a) =~= s@.subrange(a as int, b as int));
    }
    r
}

} // verus!
