//! Character-level string routines, verified against the `Seq<char>` views
//! that vstd gives to `str` and `String`. URLs and client identities are
//! compared with [`str_eq_str`]; the admin-request classifier builds on the
//! searching and numeric parsing here.

use vstd::prelude::*;
use vstd::string::StrSliceExecFns;

verus! {

/// True exactly when the two strings have the same characters.
pub fn str_eq_str(a: &str, b: &str) -> (r: bool)
    ensures
        r == (a@ == b@),
{
    let alen = a.unicode_len();
    let blen = b.unicode_len();
    if alen != blen {
        return false;
    }
    let mut i: usize = 0;
    while i < alen
        invariant
            0 <= i <= alen,
            alen == a@.len(),
            blen == b@.len(),
            alen == blen,
            forall|j: int| 0 <= j < i ==> a@[j] == b@[j],
        decreases alen - i,
    {
        if a.get_char(i) != b.get_char(i) {
            return false;
        }
        i += 1;
    }
    proof {
        assert(a@ =~= b@);
    }
    true
}

/// Index of the first occurrence of `c` in `s`, or `s.len()` when `c` does
/// not occur.
pub open spec fn first_index_of(s: Seq<char>, c: char) -> int
    decreases s.len(),
{
    if s.len() == 0 {
        0
    } else if s[0] == c {
        0
    } else {
        1 + first_index_of(s.subrange(1, s.len() as int), c)
    }
}

/// [`first_index_of`] is in range, everything before it differs from `c`,
/// and it lands on `c` unless `c` is absent.
pub proof fn lemma_first_index_of_props(s: Seq<char>, c: char)
    ensures
        0 <= first_index_of(s, c) <= s.len(),
        forall|j: int| 0 <= j < first_index_of(s, c) ==> s[j] != c,
        first_index_of(s, c) < s.len() ==> s[first_index_of(s, c)] == c,
    decreases s.len(),
{
    if s.len() > 0 && s[0] != c {
        let sub = s.subrange(1, s.len() as int);
        lemma_first_index_of_props(sub, c);
        assert forall|j: int| 0 <= j < first_index_of(s, c) implies s[j] != c by {
            if j > 0 {
                assert(sub[j - 1] != c);
            }
        }
    }
}

/// Index of the first occurrence of `c`, or the length of `s` when `c` does
/// not occur.
pub fn find_char(s: &str, c: char) -> (r: usize)
    ensures
        r as int == first_index_of(s@, c),
{
    let n = s.unicode_len();
    let mut i: usize = 0;
    while i < n
        invariant
            0 <= i <= n,
            n == s@.len(),
            forall|j: int| 0 <= j < i ==> s@[j] != c,
        decreases n - i,
    {
        if s.get_char(i) == c {
            proof {
                lemma_first_index_of_props(s@, c);
                let r = first_index_of(s@, c);
                if r < i {
                    assert(s@[r] != c);
                }
                if r > i {
                    assert(s@[i as int] != c);
                }
            }
            return i;
        }
        i += 1;
    }
    proof {
        lemma_first_index_of_props(s@, c);
        let r = first_index_of(s@, c);
        if r < n {
            assert(s@[r] != c);
        }
    }
    n
}

/// True when `n` occurs in `h` as a contiguous run of characters.
pub open spec fn contains_seq(h: Seq<char>, n: Seq<char>) -> bool {
    exists|i: int| 0 <= i && i + n.len() <= h.len() && #[trigger] h.subrange(i, i + n.len()) == n
}

/// True when `needle` occurs in `hay` as a contiguous run of characters.
pub fn str_contains(hay: &str, needle: &str) -> (r: bool)
    ensures
        r == contains_seq(hay@, needle@),
{
    let hl = hay.unicode_len();
    let nl = needle.unicode_len();
    if nl > hl {
        return false;
    }
    let mut i: usize = 0;
    while i <= hl - nl
        invariant
            0 <= i <= hl - nl + 1,
            nl <= hl,
            hl == hay@.len(),
            nl == needle@.len(),
            forall|k: int| 0 <= k < i ==> #[trigger] hay@.subrange(k, k + nl) != needle@,
        decreases hl + 1 - i,
    {
        let mut j: usize = 0;
        let mut matched = true;
        while j < nl
            invariant
                0 <= j <= nl,
                0 <= i <= hl - nl,
                nl <= hl,
                hl == hay@.len(),
                nl == needle@.len(),
                matched ==> forall|t: int| 0 <= t < j ==> hay@[i + t] == needle@[t],
                !matched ==> hay@.subrange(i as int, i + nl) != needle@,
                !matched ==> 1 <= nl,
            decreases nl - j,
        {
            if hay.get_char(i + j) != needle.get_char(j) {
                proof {
                    assert(hay@.subrange(i as int, i + nl)[j as int] == hay@[i + j]);
                }
                matched = false;
                j = nl;
            } else {
                j += 1;
            }
        }
        if matched {
            proof {
                assert(hay@.subrange(i as int, i + nl) =~= needle@);
            }
            return true;
        }
        i += 1;
    }
    proof {
        if contains_seq(hay@, needle@) {
            let k = choose|k: int|
                0 <= k && k + needle@.len() <= hay@.len() && #[trigger] hay@.subrange(
                    k,
                    k + needle@.len(),
                ) == needle@;
            assert(hay@.subrange(k, k + nl) != needle@);
        }
    }
    false
}

/// The characters the identity token is trimmed of: space, tab, newline,
/// carriage return.
pub open spec fn is_trim_char(c: char) -> bool {
    c == ' ' || c == '\t' || c == '\n' || c == '\r'
}

/// `s` with leading and trailing [`is_trim_char`] characters removed.
pub open spec fn trim_spec(s: Seq<char>) -> Seq<char>
    decreases s.len(),
{
    if s.len() == 0 {
        s
    } else if is_trim_char(s[0]) {
        trim_spec(s.subrange(1, s.len() as int))
    } else if is_trim_char(s[s.len() - 1]) {
        trim_spec(s.subrange(0, s.len() - 1))
    } else {
        s
    }
}

/// `s` without leading and trailing spaces, tabs and line breaks.
pub fn trim_str<'a>(s: &'a str) -> (r: &'a str)
    ensures
        r@ == trim_spec(s@),
    decreases s@.len(),
{
    let n = s.unicode_len();
    if n == 0 {
        return s;
    }
    let c0 = s.get_char(0);
    if c0 == ' ' || c0 == '\t' || c0 == '\n' || c0 == '\r' {
        return trim_str(s.substring_char(1, n));
    }
    let cl = s.get_char(n - 1);
    if cl == ' ' || cl == '\t' || cl == '\n' || cl == '\r' {
        return trim_str(s.substring_char(0, n - 1));
    }
    s
}

/// True of a decimal digit.
pub open spec fn is_digit_char(c: char) -> bool {
    48 <= c as u32 <= 57
}

/// The numeric value of a run of decimal digits (most significant first);
/// `None` as soon as any character is not a digit. The empty run has value 0.
pub open spec fn digits_value(s: Seq<char>) -> Option<int>
    decreases s.len(),
{
    if s.len() == 0 {
        Some(0)
    } else {
        match digits_value(s.drop_last()) {
            None => None,
            Some(v) => if is_digit_char(s.last()) {
                Some(v * 10 + (s.last() as u32 - 48))
            } else {
                None
            },
        }
    }
}

/// A digit run's value exists exactly when every character is a digit, and
/// is never negative.
pub proof fn lemma_digits_value_props(s: Seq<char>)
    ensures
        digits_value(s) is Some <==> (forall|k: int| 0 <= k < s.len() ==> is_digit_char(s[k])),
        match digits_value(s) {
            Some(v) => v >= 0,
            None => true,
        },
    decreases s.len(),
{
    if s.len() > 0 {
        lemma_digits_value_props(s.drop_last());
        if forall|k: int| 0 <= k < s.len() ==> is_digit_char(s[k]) {
            assert forall|k: int| 0 <= k < s.drop_last().len() implies is_digit_char(
                s.drop_last()[k],
            ) by {
                assert(s.drop_last()[k] == s[k]);
            }
        } else {
            let k = choose|k: int| 0 <= k < s.len() && !is_digit_char(s[k]);
            if k < s.len() - 1 {
                assert(!is_digit_char(s.drop_last()[k]));
            }
        }
    }
}

/// What `u32` parsing accepts: an optional leading `+`, then at least one
/// decimal digit, the whole value fitting in `u32`.
pub open spec fn parse_u32_spec(s: Seq<char>) -> Option<u32> {
    let body = if s.len() > 0 && s[0] == '+' {
        s.subrange(1, s.len() as int)
    } else {
        s
    };
    if body.len() == 0 {
        None
    } else {
        match digits_value(body) {
            None => None,
            Some(v) => if v <= u32::MAX {
                Some(v as u32)
            } else {
                None
            },
        }
    }
}

/// What `u64` parsing accepts: an optional leading `+`, then at least one
/// decimal digit, the whole value fitting in `u64`.
pub open spec fn parse_u64_spec(s: Seq<char>) -> Option<u64> {
    let body = if s.len() > 0 && s[0] == '+' {
        s.subrange(1, s.len() as int)
    } else {
        s
    };
    if body.len() == 0 {
        None
    } else {
        match digits_value(body) {
            None => None,
            Some(v) => if v <= u64::MAX {
                Some(v as u64)
            } else {
                None
            },
        }
    }
}

/// The decimal value of the digits of `s` from position `from` on, clamped
/// just above `cap`; `None` on any non-digit. Shared engine of the two
/// parsers below.
fn parse_digits_clamped(s: &str, from: usize, cap: u128) -> (r: Option<u128>)
    requires
        from as int <= s@.len(),
        cap < u128::MAX / 16,
    ensures
        ({
            let body = s@.subrange(from as int, s@.len() as int);
            match r {
                None => digits_value(body) is None,
                Some(acc) => match digits_value(body) {
                    Some(v) => acc == if v > cap {
                        cap + 1
                    } else {
                        v
                    },
                    None => false,
                },
            }
        }),
{
    let n = s.unicode_len();
    let mut acc: u128 = 0;
    let mut j: usize = from;
    while j < n
        invariant
            from <= j <= n,
            n == s@.len(),
            cap < u128::MAX / 16,
            ({
                match digits_value(s@.subrange(from as int, j as int)) {
                    Some(v) => v >= 0 && acc == if v > cap {
                        cap + 1
                    } else {
                        v
                    },
                    None => false,
                }
            }),
        decreases n - j,
    {
        let c = s.get_char(j);
        let cu = c as u32;
        let ghost pref = s@.subrange(from as int, j as int);
        let ghost pref1 = s@.subrange(from as int, j as int + 1);
        proof {
            assert(pref1.drop_last() =~= pref);
            assert(pref1.last() == s@[j as int]);
            lemma_digits_value_props(pref);
        }
        if cu < 48 || cu > 57 {
            proof {
                assert(digits_value(pref1) is None);
                lemma_digits_value_props(pref1);
                lemma_digits_value_props(s@.subrange(from as int, n as int));
                assert(!is_digit_char(s@.subrange(from as int, n as int)[j - from]));
            }
            return None;
        }
        let d = (cu - 48) as u128;
        if acc <= cap {
            acc = acc * 10 + d;
        }
        if acc > cap {
            acc = cap + 1;
        }
        j += 1;
        proof {
            assert(digits_value(pref1) is Some);
        }
    }
    proof {
        assert(s@.subrange(from as int, j as int) =~= s@.subrange(from as int, n as int));
    }
    Some(acc)
}

/// Parse a decimal `u32` as the standard library does: an optional leading
/// `+`, then at least one digit, rejecting anything else and overflow.
pub fn parse_u32_str(s: &str) -> (r: Option<u32>)
    ensures
        r == parse_u32_spec(s@),
{
    let n = s.unicode_len();
    let from: usize = if n > 0 && s.get_char(0) == '+' {
        1
    } else {
        0
    };
    proof {
        if from == 0 {
            assert(s@.subrange(0, n as int) =~= s@);
        }
    }
    if from >= n {
        return None;
    }
    let r = parse_digits_clamped(s, from, u32::MAX as u128);
    match r {
        None => None,
        Some(acc) => if acc > u32::MAX as u128 {
            None
        } else {
            Some(acc as u32)
        },
    }
}

/// Parse a decimal `u64` as the standard library does: an optional leading
/// `+`, then at least one digit, rejecting anything else and overflow.
pub fn parse_u64_str(s: &str) -> (r: Option<u64>)
    ensures
        r == parse_u64_spec(s@),
{
    let n = s.unicode_len();
    let from: usize = if n > 0 && s.get_char(0) == '+' {
        1
    } else {
        0
    };
    proof {
        if from == 0 {
            assert(s@.subrange(0, n as int) =~= s@);
        }
    }
    if from >= n {
        return None;
    }
    let r = parse_digits_clamped(s, from, u64::MAX as u128);
    match r {
        None => None,
        Some(acc) => if acc > u64::MAX as u128 {
            None
        } else {
            Some(acc as u64)
        },
    }
}

} // verus!
