//! Verified building blocks for working with character sequences: substring
//! search, decimal parsing, and a lexicographic order on keys.

use vstd::prelude::*;

verus! {

// ---------------------------------------------------------------------------
// Substring search
// ---------------------------------------------------------------------------

/// `pat` occurs in `s` starting at index `i`.
pub open spec fn occurs_at(s: Seq<char>, pat: Seq<char>, i: int) -> bool {
    0 <= i && i + pat.len() <= s.len() && pat == s.subrange(i, i + pat.len())
}

/// The index of the first occurrence of `pat` in `s`, if any.
pub open spec fn first_occur(s: Seq<char>, pat: Seq<char>) -> Option<int>
    decreases s.len(),
{
    if occurs_at(s, pat, 0) {
        Some(0int)
    } else if s.len() == 0 {
        None
    } else {
        match first_occur(s.drop_first(), pat) {
            Some(i) => Some(i + 1),
            None => None,
        }
    }
}

/// A found occurrence lies within the bounds of `s`.
pub proof fn lemma_first_occur_bounds(s: Seq<char>, pat: Seq<char>)
    ensures
        first_occur(s, pat) matches Some(i) ==> 0 <= i && i + pat.len() <= s.len(),
    decreases s.len(),
{
    if !occurs_at(s, pat, 0) && s.len() > 0 {
        lemma_first_occur_bounds(s.drop_first(), pat);
    }
}

/// `first_occur` returns the least index at which `pat` occurs, and `None`
/// exactly when there is no occurrence.
pub proof fn lemma_first_occur_iff(s: Seq<char>, pat: Seq<char>)
    ensures
        match first_occur(s, pat) {
            Some(i) => occurs_at(s, pat, i) && forall|j: int| 0 <= j < i ==> !occurs_at(s, pat, j),
            None => forall|j: int| !occurs_at(s, pat, j),
        },
    decreases s.len(),
{
    if occurs_at(s, pat, 0) {
    } else if s.len() == 0 {
        assert forall|j: int| !occurs_at(s, pat, j) by {}
    } else {
        lemma_first_occur_iff(s.drop_first(), pat);
        assert forall|j: int| 1 <= j && j + pat.len() <= s.len() implies occurs_at(
            s.drop_first(),
            pat,
            j - 1,
        ) == occurs_at(s, pat, j) by {
            assert(s.drop_first().subrange(j - 1, j - 1 + pat.len() as int) =~= s.subrange(
                j,
                j + pat.len(),
            ));
        }
        match first_occur(s.drop_first(), pat) {
            Some(i) => {
                assert(occurs_at(s.drop_first(), pat, i));
                assert(occurs_at(s, pat, i + 1));
                assert forall|j: int| 0 <= j < i + 1 implies !occurs_at(s, pat, j) by {
                    if j > 0 {
                        assert(!occurs_at(s.drop_first(), pat, j - 1));
                    }
                }
            },
            None => {
                assert forall|j: int| !occurs_at(s, pat, j) by {
                    if 1 <= j && j + pat.len() <= s.len() {
                        assert(!occurs_at(s.drop_first(), pat, j - 1));
                    }
                }
            },
        }
    }
}

/// Whether `pat@` occurs in `s@` at position `i`, by direct comparison.
fn matches_at(s: &str, pat: &str, i: usize) -> (r: bool)
    requires
        i + pat@.len() <= s@.len(),
    ensures
        r == occurs_at(s@, pat@, i as int),
{
    let n = s.unicode_len();
    let m = pat.unicode_len();
    let mut k: usize = 0;
    while k < m
        invariant
            0 <= k <= m,
            n == s@.len(),
            m == pat@.len(),
            i + m <= n,
            forall|k2: int| 0 <= k2 < k ==> pat@[k2] == s@[i + k2],
        decreases m - k,
    {
        if s.get_char(i + k) != pat.get_char(k) {
            assert(pat@[k as int] != s@.subrange(i as int, i + m)[k as int]);
            return false;
        }
        k += 1;
    }
    assert(pat@ =~= s@.subrange(i as int, i + m));
    true
}

/// The first position at which `pat` occurs in `s`, if any.
pub fn find_sub(s: &str, pat: &str) -> (r: Option<usize>)
    requires
        pat@.len() >= 1,
    ensures
        match r {
            Some(i) => first_occur(s@, pat@) == Some(i as int),
            None => first_occur(s@, pat@) is None,
        },
{
    proof {
        lemma_first_occur_iff(s@, pat@);
    }
    let n = s.unicode_len();
    let m = pat.unicode_len();
    if m > n {
        return None;
    }
    let mut i: usize = 0;
    while i <= n - m
        invariant
            0 <= i,
            i <= n - m + 1,
            n == s@.len(),
            m == pat@.len(),
            1 <= m <= n,
            forall|j: int| 0 <= j < i ==> !occurs_at(s@, pat@, j),
        decreases n - i,
    {
        if matches_at(s, pat, i) {
            proof {
                lemma_first_occur_iff(s@, pat@);
                match first_occur(s@, pat@) {
                    Some(f) => {
                        if f < i {
                            assert(!occurs_at(s@, pat@, f));
                        }
                        if f > i {
                            assert(!occurs_at(s@, pat@, i as int));
                        }
                    },
                    None => {
                        assert(!occurs_at(s@, pat@, i as int));
                    },
                }
            }
            return Some(i);
        }
        i += 1;
    }
    proof {
        assert forall|j: int| !occurs_at(s@, pat@, j) by {
            if 0 <= j < i {
            } else if j >= i {
                assert(j + pat@.len() > s@.len());
            }
        }
        lemma_first_occur_iff(s@, pat@);
    }
    None
}

/// Whether the views of two string slices are equal.
pub fn str_eq(a: &str, b: &str) -> (r: bool)
    ensures
        r == (a@ == b@),
{
    let n = a.unicode_len();
    if n != b.unicode_len() {
        return false;
    }
    let mut k: usize = 0;
    while k < n
        invariant
            0 <= k <= n,
            n == a@.len(),
            n == b@.len(),
            forall|k2: int| 0 <= k2 < k ==> a@[k2] == b@[k2],
        decreases n - k,
    {
        if a.get_char(k) != b.get_char(k) {
            return false;
        }
        k += 1;
    }
    proof {
        assert(a@ =~= b@);
    }
    true
}

/// Whether `p@` is a prefix of `s@`.
pub fn str_prefix(s: &str, p: &str) -> (r: bool)
    ensures
        r == p@.is_prefix_of(s@),
{
    let n = s.unicode_len();
    let m = p.unicode_len();
    if m > n {
        assert(!p@.is_prefix_of(s@));
        return false;
    }
    let r = matches_at(s, p, 0);
    proof {
        if occurs_at(s@, p@, 0) {
            assert(p@.is_prefix_of(s@));
        } else {
            assert(s@.subrange(0, m as int) == s@.take(m as int));
        }
    }
    r
}

// ---------------------------------------------------------------------------
// Substring replacement
// ---------------------------------------------------------------------------

/// `s` with every occurrence of `pat` replaced by `rep`, left to right
/// and without overlap.
pub open spec fn replace_all(s: Seq<char>, pat: Seq<char>, rep: Seq<char>) -> Seq<char>
    decreases s.len(),
    when pat.len() > 0
    via replace_all_decreases
{
    match first_occur(s, pat) {
        None => s,
        Some(i) => s.take(i) + rep + replace_all(s.skip(i + pat.len() as int), pat, rep),
    }
}

#[via_fn]
proof fn replace_all_decreases(s: Seq<char>, pat: Seq<char>, rep: Seq<char>) {
    lemma_first_occur_bounds(s, pat);
}

/// Replaces every occurrence of `pat` in `s` by `rep`.
pub fn replace_sub(s: &str, pat: &str, rep: &str) -> (r: String)
    requires
        pat@.len() >= 1,
    ensures
        r@ == replace_all(s@, pat@, rep@),
{
    let n = s.unicode_len();
    let mut out = String::new();
    let mut start: usize = 0;
    proof {
        assert(s@.skip(0) =~= s@);
    }
    loop
        invariant
            0 <= start <= n,
            n == s@.len(),
            pat@.len() >= 1,
            out@ + replace_all(s@.skip(start as int), pat@, rep@) == replace_all(s@, pat@, rep@),
        decreases n - start,
    {
        let rest = s.substring_char(start, n);
        proof {
            assert(rest@ =~= s@.skip(start as int));
        }
        match find_sub(rest, pat) {
            None => {
                out.append(rest);
                proof {
                    assert(out@ =~= replace_all(s@, pat@, rep@));
                }
                return out;
            },
            Some(i) => {
                proof {
                    lemma_first_occur_bounds(rest@, pat@);
                }
                let m = pat.unicode_len();
                let head = rest.substring_char(0, i);
                out.append(head);
                out.append(rep);
                proof {
                    assert(head@ =~= rest@.take(i as int));
                    vstd::seq_lib::lemma_seq_skip_of_skip(s@, start as int, i + m);
                    assert(rest@.skip(i + pat@.len() as int) =~= s@.skip(start + i + m));
                }
                start = start + i + m;
            },
        }
    }
}

// ---------------------------------------------------------------------------
// Lexicographic order
// ---------------------------------------------------------------------------

/// `a` is strictly before `b` in lexicographic order by code point.
pub open spec fn lex_lt(a: Seq<char>, b: Seq<char>) -> bool
    decreases a.len(),
{
    b.len() > 0 && (a.len() == 0 || (a[0] as u32) < (b[0] as u32) || (a[0] == b[0] && lex_lt(
        a.drop_first(),
        b.drop_first(),
    )))
}

/// The order is irreflexive.
pub proof fn lemma_lex_irrefl(a: Seq<char>)
    ensures
        !lex_lt(a, a),
    decreases a.len(),
{
    if a.len() > 0 {
        lemma_lex_irrefl(a.drop_first());
    }
}

/// The order is transitive.
pub proof fn lemma_lex_trans(a: Seq<char>, b: Seq<char>, c: Seq<char>)
    requires
        lex_lt(a, b),
        lex_lt(b, c),
    ensures
        lex_lt(a, c),
    decreases a.len(),
{
    if a.len() > 0 {
        if !((a[0] as u32) < (b[0] as u32)) && !((b[0] as u32) < (c[0] as u32)) {
            lemma_lex_trans(a.drop_first(), b.drop_first(), c.drop_first());
        }
    }
}

/// Any two keys are ordered or equal.
pub proof fn lemma_lex_total(a: Seq<char>, b: Seq<char>)
    ensures
        lex_lt(a, b) || lex_lt(b, a) || a == b,
    decreases a.len(),
{
    if a.len() == 0 && b.len() == 0 {
        assert(a =~= b);
    } else if a.len() > 0 && b.len() > 0 {
        if (a[0] as u32) == (b[0] as u32) {
            vstd::utf8::char_u32_cast(a[0], a[0] as u32);
            vstd::utf8::char_u32_cast(b[0], b[0] as u32);
            assert(a[0] == b[0]);
            lemma_lex_total(a.drop_first(), b.drop_first());
            if a.drop_first() == b.drop_first() {
                assert(a =~= seq![a[0]] + a.drop_first());
                assert(b =~= seq![b[0]] + b.drop_first());
            }
        }
    }
}

/// Unrolls the order across an equal prefix of length `k`.
proof fn lemma_lex_from_prefix(a: Seq<char>, b: Seq<char>, k: int)
    requires
        0 <= k <= a.len(),
        k <= b.len(),
        forall|i: int| 0 <= i < k ==> a[i] == b[i],
    ensures
        lex_lt(a, b) == (k < b.len() && (k == a.len() || ((a[k] as u32) < (b[k] as u32)) || (a[k]
            == b[k] && lex_lt(a.skip(k + 1), b.skip(k + 1))))),
    decreases k,
{
    if k == 0 {
        if a.len() > 0 {
            assert(a.skip(1) =~= a.drop_first());
        }
        if b.len() > 0 {
            assert(b.skip(1) =~= b.drop_first());
        }
    } else {
        assert forall|i: int| 0 <= i < k - 1 implies a.drop_first()[i] == b.drop_first()[i] by {
            assert(a.drop_first()[i] == a[i + 1]);
            assert(b.drop_first()[i] == b[i + 1]);
        }
        lemma_lex_from_prefix(a.drop_first(), b.drop_first(), k - 1);
        if k < a.len() {
            assert(a.drop_first().skip(k) =~= a.skip(k + 1));
            assert(a.drop_first()[k - 1] == a[k]);
        }
        if k < b.len() {
            assert(b.drop_first().skip(k) =~= b.skip(k + 1));
            assert(b.drop_first()[k - 1] == b[k]);
        }
    }
}

/// Whether `a@` is strictly before `b@` in lexicographic order.
pub fn str_lt(a: &str, b: &str) -> (r: bool)
    ensures
        r == lex_lt(a@, b@),
{
    let an = a.unicode_len();
    let bn = b.unicode_len();
    let mut k: usize = 0;
    while k < an && k < bn
        invariant
            0 <= k <= an,
            k <= bn,
            an == a@.len(),
            bn == b@.len(),
            forall|i: int| 0 <= i < k ==> a@[i] == b@[i],
        decreases an - k,
    {
        let ca = a.get_char(k);
        let cb = b.get_char(k);
        if (ca as u32) < (cb as u32) {
            proof {
                lemma_lex_from_prefix(a@, b@, k as int);
            }
            return true;
        }
        if (ca as u32) > (cb as u32) {
            proof {
                lemma_lex_from_prefix(a@, b@, k as int);
            }
            return false;
        }
        proof {
            vstd::utf8::char_u32_cast(ca, ca as u32);
            vstd::utf8::char_u32_cast(cb, cb as u32);
        }
        k += 1;
    }
    proof {
        lemma_lex_from_prefix(a@, b@, k as int);
    }
    an < bn
}

// ---------------------------------------------------------------------------
// Decimal digits
// ---------------------------------------------------------------------------

/// `c` is a decimal digit.
pub open spec fn is_digit_char(c: char) -> bool {
    48 <= c as u32 && c as u32 <= 57
}

/// The numeric value of a decimal digit.
pub open spec fn digit_value(c: char) -> nat {
    (c as u32 - 48) as nat
}

/// Every character of `s` is a decimal digit.
pub open spec fn all_digits(s: Seq<char>) -> bool {
    forall|i: int| 0 <= i < s.len() ==> is_digit_char(s[i])
}

/// The value of a sequence of decimal digits, most significant first.
pub open spec fn digits_value(s: Seq<char>) -> nat
    decreases s.len(),
{
    if s.len() == 0 {
        0
    } else {
        digits_value(s.drop_last()) * 10 + digit_value(s.last())
    }
}

/// `s` is a non-empty digit string whose value fits in a `u32`.
pub open spec fn parses_to_u32(s: Seq<char>) -> bool {
    s.len() > 0 && all_digits(s) && digits_value(s) <= u32::MAX
}

/// The digit character for a value below ten.
pub open spec fn digit_char_of(n: int) -> char {
    if n == 0 {
        '0'
    } else if n == 1 {
        '1'
    } else if n == 2 {
        '2'
    } else if n == 3 {
        '3'
    } else if n == 4 {
        '4'
    } else if n == 5 {
        '5'
    } else if n == 6 {
        '6'
    } else if n == 7 {
        '7'
    } else if n == 8 {
        '8'
    } else {
        '9'
    }
}

/// `digit_char_of` is the inverse of `digit_value` on single digits.
pub proof fn lemma_digit_char_of(n: int)
    requires
        0 <= n <= 9,
    ensures
        is_digit_char(digit_char_of(n)),
        digit_value(digit_char_of(n)) == n,
{
}

/// Two digit characters with the same value are the same character.
pub proof fn lemma_digit_char_unique(c: char, n: int)
    requires
        0 <= n <= 9,
        is_digit_char(c),
        digit_value(c) == n,
    ensures
        c == digit_char_of(n),
{
    let u = c as u32;
    assert(u == 48 + n);
    vstd::utf8::char_u32_cast(c, u);
    vstd::utf8::char_u32_cast(digit_char_of(n), digit_char_of(n) as u32);
}

/// The value of a digit string is at least the value of any of its prefixes.
pub proof fn lemma_digits_value_prefix(s: Seq<char>, k: int)
    requires
        0 <= k <= s.len(),
    ensures
        digits_value(s) >= digits_value(s.take(k)),
    decreases s.len(),
{
    if k < s.len() {
        assert(s.drop_last().take(k) =~= s.take(k));
        lemma_digits_value_prefix(s.drop_last(), k);
        assert(digits_value(s.drop_last()) * 10 >= digits_value(s.drop_last()));
    } else {
        assert(s.take(k) =~= s);
    }
}

/// A digit string with value below ten has its value in its last digit.
pub proof fn lemma_single_digit_value(s: Seq<char>)
    requires
        s.len() > 0,
        all_digits(s),
        digits_value(s) < 10,
    ensures
        digit_value(s.last()) == digits_value(s),
        s.last() == digit_char_of(digits_value(s) as int),
{
    assert(digits_value(s.drop_last()) * 10 < 10);
    assert(digits_value(s.drop_last()) == 0);
    lemma_digit_char_unique(s.last(), digits_value(s) as int);
}

/// Strict base-10 parse of `s` into a `u32`: all of `s` must be digits and
/// the value must fit.
pub fn parse_u32(s: &str) -> (r: Option<u32>)
    ensures
        match r {
            Some(v) => parses_to_u32(s@) && v == digits_value(s@),
            None => !parses_to_u32(s@),
        },
{
    let n = s.unicode_len();
    if n == 0 {
        return None;
    }
    let mut acc: u32 = 0;
    let mut k: usize = 0;
    while k < n
        invariant
            0 <= k <= n,
            n == s@.len(),
            n > 0,
            all_digits(s@.take(k as int)),
            acc == digits_value(s@.take(k as int)),
        decreases n - k,
    {
        let c = s.get_char(k);
        let u = c as u32;
        if u < 48 || u > 57 {
            assert(!is_digit_char(s@[k as int]));
            return None;
        }
        let d = u - 48;
        if acc > (u32::MAX - d) / 10 {
            proof {
                assert(s@.take(k as int + 1).drop_last() =~= s@.take(k as int));
                assert(s@.take(k as int + 1).last() == s@[k as int]);
                assert(digits_value(s@.take(k as int + 1)) == acc * 10 + d);
                assert(acc * 10 + d > u32::MAX) by (nonlinear_arith)
                    requires
                        acc > (u32::MAX - d) / 10,
                        d <= 9,
                {}
                lemma_digits_value_prefix(s@, k as int + 1);
            }
            return None;
        }
        proof {
            assert(acc * 10 + d <= u32::MAX) by (nonlinear_arith)
                requires
                    acc <= (u32::MAX - d) / 10,
                    d <= 9,
            {}
            assert(s@.take(k as int + 1).drop_last() =~= s@.take(k as int));
            assert(s@.take(k as int + 1).last() == s@[k as int]);
        }
        acc = acc * 10 + d;
        k += 1;
    }
    proof {
        assert(s@.take(n as int) =~= s@);
    }
    Some(acc)
}

} // verus!
