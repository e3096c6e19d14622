//! The SemVer 2.0 textual grammar: character classes, numeric and
//! alphanumeric identifiers, dot-separated identifier lists, and the decimal
//! value of a digit string.

use core::cmp::Ordering;
use vstd::prelude::*;

verus! {

/// A decimal digit.
pub open spec fn spec_is_digit(c: char) -> bool {
    '0' <= c && c <= '9'
}

/// A character allowed in a SemVer identifier: letters, digits and hyphen.
pub open spec fn spec_is_ident_char(c: char) -> bool {
    spec_is_digit(c) || ('a' <= c && c <= 'z') || ('A' <= c && c <= 'Z') || c == '-'
}

#[verifier::when_used_as_spec(spec_is_digit)]
pub fn is_digit_char(c: char) -> (r: bool)
    ensures
        r == spec_is_digit(c),
{
    '0' <= c && c <= '9'
}

#[verifier::when_used_as_spec(spec_is_ident_char)]
pub fn is_ident_char(c: char) -> (r: bool)
    ensures
        r == spec_is_ident_char(c),
{
    is_digit_char(c) || ('a' <= c && c <= 'z') || ('A' <= c && c <= 'Z') || c == '-'
}

/// A non-empty run of digits.
pub open spec fn is_digits(s: Seq<char>) -> bool {
    s.len() > 0 && forall|i: int| 0 <= i < s.len() ==> spec_is_digit(s[i])
}

/// A numeric field or numeric identifier: digits with no leading zero
/// (a single "0" is allowed).
pub open spec fn is_numeric_field(s: Seq<char>) -> bool {
    is_digits(s) && (s.len() == 1 || s[0] != '0')
}

/// An alphanumeric identifier: identifier characters with at least one
/// non-digit among them.
pub open spec fn is_alphanum_ident(s: Seq<char>) -> bool {
    &&& s.len() > 0
    &&& forall|i: int| 0 <= i < s.len() ==> spec_is_ident_char(s[i])
    &&& exists|i: int| 0 <= i < s.len() && !spec_is_digit(s[i])
}

/// A single prerelease identifier.
pub open spec fn is_prerelease_ident(s: Seq<char>) -> bool {
    is_numeric_field(s) || is_alphanum_ident(s)
}

/// A single build-metadata identifier: leading zeros are permitted here.
pub open spec fn is_build_ident(s: Seq<char>) -> bool {
    s.len() > 0 && forall|i: int| 0 <= i < s.len() ==> spec_is_ident_char(s[i])
}

/// Split on '.': every string splits into one or more (possibly empty)
/// segments; the segments never contain a dot.
pub open spec fn split_dots(s: Seq<char>) -> Seq<Seq<char>>
    decreases s.len(),
{
    if s.len() == 0 {
        seq![Seq::<char>::empty()]
    } else if s[0] == '.' {
        seq![Seq::<char>::empty()] + split_dots(s.skip(1))
    } else {
        let rest = split_dots(s.skip(1));
        seq![seq![s[0]] + rest[0]] + rest.skip(1)
    }
}

/// One or more dot-separated prerelease identifiers.
pub open spec fn is_prerelease_text(s: Seq<char>) -> bool {
    forall|i: int| 0 <= i < split_dots(s).len() ==> is_prerelease_ident(#[trigger] split_dots(s)[i])
}

/// One or more dot-separated build-metadata identifiers.
pub open spec fn is_build_text(s: Seq<char>) -> bool {
    forall|i: int| 0 <= i < split_dots(s).len() ==> is_build_ident(#[trigger] split_dots(s)[i])
}

pub proof fn lemma_split_dots_len(s: Seq<char>)
    ensures
        split_dots(s).len() >= 1,
    decreases s.len(),
{
    if s.len() == 0 {
    } else {
        lemma_split_dots_len(s.skip(1));
    }
}

/// A string without dots splits into exactly itself.
pub proof fn lemma_split_dots_whole(s: Seq<char>)
    requires
        forall|i: int| 0 <= i < s.len() ==> s[i] != '.',
    ensures
        split_dots(s) =~= seq![s],
    decreases s.len(),
{
    if s.len() == 0 {
        assert(split_dots(s) =~= seq![Seq::<char>::empty()]);
        assert(s =~= Seq::<char>::empty());
    } else {
        lemma_split_dots_whole(s.skip(1));
        let rest = split_dots(s.skip(1));
        assert(rest =~= seq![s.skip(1)]);
        assert(seq![s[0]] + s.skip(1) =~= s);
        assert(split_dots(s) =~= seq![seq![s[0]] + rest[0]] + rest.skip(1));
        assert(rest.skip(1) =~= Seq::<Seq<char>>::empty());
    }
}

/// Splitting at the first dot: the part before it is one segment, the rest
/// splits on its own.
pub proof fn lemma_split_dots_first(s: Seq<char>, i: int)
    requires
        0 <= i < s.len(),
        s[i] == '.',
        forall|j: int| 0 <= j < i ==> s[j] != '.',
    ensures
        split_dots(s) =~= seq![s.take(i)] + split_dots(s.skip(i + 1)),
    decreases i,
{
    if i == 0 {
        assert(s.take(0) =~= Seq::<char>::empty());
    } else {
        let t = s.skip(1);
        assert(t[i - 1] == '.');
        assert(forall|j: int| 0 <= j < i - 1 ==> t[j] != '.');
        lemma_split_dots_first(t, i - 1);
        assert(t.skip(i) =~= s.skip(i + 1));
        let rest = split_dots(t);
        assert(rest[0] == t.take(i - 1));
        assert(seq![s[0]] + t.take(i - 1) =~= s.take(i));
        assert(rest.skip(1) =~= split_dots(s.skip(i + 1)));
    }
}

/// Splitting distributes over a joining dot: the segments of `a + "." + b`
/// are the segments of `a` followed by those of `b`.
pub proof fn lemma_split_dots_concat(a: Seq<char>, b: Seq<char>)
    ensures
        split_dots(a + seq!['.'] + b) =~= split_dots(a) + split_dots(b),
    decreases a.len(),
{
    let s = a + seq!['.'] + b;
    if a.len() == 0 {
        assert(s[0] == '.');
        assert(s.skip(1) =~= b);
        assert(split_dots(s) =~= seq![Seq::<char>::empty()] + split_dots(b));
        assert(split_dots(a) =~= seq![Seq::<char>::empty()]);
    } else {
        lemma_split_dots_concat(a.skip(1), b);
        assert(s.skip(1) =~= a.skip(1) + seq!['.'] + b);
        lemma_split_dots_len(a.skip(1));
        let ra = split_dots(a.skip(1));
        let rs = split_dots(s.skip(1));
        assert(rs =~= ra + split_dots(b));
        assert(rs[0] == ra[0]);
        if a[0] == '.' {
            assert(split_dots(s) =~= seq![Seq::<char>::empty()] + rs);
            assert(split_dots(a) =~= seq![Seq::<char>::empty()] + ra);
        } else {
            assert(s[0] == a[0]);
            assert(split_dots(s) =~= seq![seq![s[0]] + rs[0]] + rs.skip(1));
            assert(split_dots(a) =~= seq![seq![a[0]] + ra[0]] + ra.skip(1));
            assert(rs.skip(1) =~= ra.skip(1) + split_dots(b));
        }
    }
}

/// Joining two valid prerelease texts with a dot gives a valid one.
pub proof fn lemma_prerelease_text_concat(a: Seq<char>, b: Seq<char>)
    requires
        is_prerelease_text(a),
        is_prerelease_text(b),
    ensures
        is_prerelease_text(a + seq!['.'] + b),
{
    lemma_split_dots_concat(a, b);
    let parts = split_dots(a + seq!['.'] + b);
    assert forall|i: int| 0 <= i < parts.len() implies is_prerelease_ident(
        #[trigger] parts[i],
    ) by {
        if i < split_dots(a).len() {
            assert(parts[i] == split_dots(a)[i]);
        } else {
            assert(parts[i] == split_dots(b)[i - split_dots(a).len()]);
        }
    }
}

/// Joining two valid build-metadata texts with a dot gives a valid one.
pub proof fn lemma_build_text_concat(a: Seq<char>, b: Seq<char>)
    requires
        is_build_text(a),
        is_build_text(b),
    ensures
        is_build_text(a + seq!['.'] + b),
{
    lemma_split_dots_concat(a, b);
    let parts = split_dots(a + seq!['.'] + b);
    assert forall|i: int| 0 <= i < parts.len() implies is_build_ident(#[trigger] parts[i]) by {
        if i < split_dots(a).len() {
            assert(parts[i] == split_dots(a)[i]);
        } else {
            assert(parts[i] == split_dots(b)[i - split_dots(a).len()]);
        }
    }
}

/// A decimal rendering is on its own a valid text of either kind.
pub proof fn lemma_dec_digits_text(n: nat)
    ensures
        is_prerelease_text(dec_digits(n)),
        is_build_text(dec_digits(n)),
{
    let d = dec_digits(n);
    lemma_dec_digits_valid(n);
    lemma_split_dots_whole(d);
    assert(split_dots(d) =~= seq![d]);
    assert forall|i: int| 0 <= i < split_dots(d).len() implies is_prerelease_ident(
        #[trigger] split_dots(d)[i],
    ) && is_build_ident(split_dots(d)[i]) by {
        assert(split_dots(d)[i] == d);
        assert(forall|j: int| 0 <= j < d.len() ==> spec_is_ident_char(d[j]));
    }
}

/// The decimal value of a digit string.
pub open spec fn digit_val(c: char) -> nat {
    if c == '0' {
        0
    } else if c == '1' {
        1
    } else if c == '2' {
        2
    } else if c == '3' {
        3
    } else if c == '4' {
        4
    } else if c == '5' {
        5
    } else if c == '6' {
        6
    } else if c == '7' {
        7
    } else if c == '8' {
        8
    } else {
        9
    }
}

pub open spec fn digit_char(n: nat) -> char {
    if n == 0 {
        '0'
    } else if n == 1 {
        '1'
    } else if n == 2 {
        '2'
    } else if n == 3 {
        '3'
    } else if n == 4 {
        '4'
    } else if n == 5 {
        '5'
    } else if n == 6 {
        '6'
    } else if n == 7 {
        '7'
    } else if n == 8 {
        '8'
    } else {
        '9'
    }
}

pub open spec fn digits_val(s: Seq<char>) -> nat
    decreases s.len(),
{
    if s.len() == 0 {
        0
    } else {
        digits_val(s.take(s.len() - 1)) * 10 + digit_val(s.last())
    }
}

/// A digit is one of the ten digit characters.
pub proof fn lemma_digit_cases(c: char)
    requires
        spec_is_digit(c),
    ensures
        c == '0' || c == '1' || c == '2' || c == '3' || c == '4' || c == '5' || c == '6' || c
            == '7' || c == '8' || c == '9',
{
}

pub proof fn lemma_digit_char_val(c: char)
    requires
        spec_is_digit(c),
    ensures
        digit_char(digit_val(c)) == c,
        digit_val(c) < 10,
{
    lemma_digit_cases(c);
}

pub proof fn lemma_digit_val_char(n: nat)
    requires
        n < 10,
    ensures
        digit_val(digit_char(n)) == n,
        spec_is_digit(digit_char(n)),
{
}

/// The decimal rendering of a number.
pub open spec fn dec_digits(n: nat) -> Seq<char>
    decreases n,
{
    if n < 10 {
        seq![digit_char(n)]
    } else {
        dec_digits(n / 10) + seq![digit_char(n % 10)]
    }
}

pub proof fn lemma_dec_digits_valid(n: nat)
    ensures
        is_numeric_field(dec_digits(n)),
        n >= 1 ==> dec_digits(n)[0] != '0',
        forall|i: int| 0 <= i < dec_digits(n).len() ==> dec_digits(n)[i] != '.',
    decreases n,
{
    if n < 10 {
        lemma_digit_val_char(n);
        assert(dec_digits(n) =~= seq![digit_char(n)]);
        assert(dec_digits(n)[0] == digit_char(n));
    } else {
        lemma_dec_digits_valid(n / 10);
        lemma_digit_val_char(n % 10);
        let d = dec_digits(n);
        let p = dec_digits(n / 10);
        assert(d =~= p + seq![digit_char(n % 10)]);
        assert(d[0] == p[0]);
        assert(forall|i: int| 0 <= i < d.len() ==> spec_is_digit(#[trigger] d[i])) by {
            assert(forall|i: int| 0 <= i < p.len() ==> d[i] == p[i]);
            assert(d[d.len() - 1] == digit_char(n % 10));
        }
    }
}

/// A numeric field renders back to itself: decimal rendering inverts the
/// decimal value on digit strings without leading zeros.
pub proof fn lemma_digits_roundtrip(s: Seq<char>)
    requires
        is_numeric_field(s),
    ensures
        dec_digits(digits_val(s)) =~= s,
    decreases s.len(),
{
    if s.len() == 1 {
        lemma_digit_char_val(s[0]);
        assert(s.take(s.len() - 1) =~= Seq::<char>::empty());
        assert(digits_val(Seq::<char>::empty()) == 0);
        assert(s.last() == s[0]);
        assert(digits_val(s) == 0 * 10 + digit_val(s.last()));
        assert(dec_digits(digits_val(s)) =~= seq![s[0]]);
        assert(seq![s[0]] =~= s);
    } else {
        let p = s.take(s.len() - 1);
        assert(is_numeric_field(p));
        lemma_digits_roundtrip(p);
        lemma_digit_char_val(s.last());
        let n = digits_val(s);
        assert(n == digits_val(p) * 10 + digit_val(s.last()));
        lemma_digits_val_lower(p);
        assert(digits_val(p) >= 1);
        assert(n >= 10 && n / 10 == digits_val(p) && n % 10 == digit_val(s.last()))
            by (nonlinear_arith)
            requires
                n == digits_val(p) * 10 + digit_val(s.last()),
                digits_val(p) >= 1,
                digit_val(s.last()) < 10,
        ;
        assert(dec_digits(n) =~= dec_digits(digits_val(p)) + seq![digit_char(digit_val(s.last()))]);
        assert(dec_digits(n) =~= p + seq![s.last()]);
        assert(p + seq![s.last()] =~= s);
    }
}

/// A digit string without a leading zero has value at least 1 (unless it is
/// "0" itself, which is excluded by length > 1 here).
proof fn lemma_digits_val_lower(s: Seq<char>)
    requires
        is_digits(s),
        s[0] != '0',
    ensures
        digits_val(s) >= 1,
    decreases s.len(),
{
    if s.len() == 1 {
        lemma_digit_cases(s[0]);
    } else {
        let p = s.take(s.len() - 1);
        lemma_digits_val_lower(p);
    }
}

pub open spec fn pow10(k: nat) -> nat
    decreases k,
{
    if k == 0 {
        1
    } else {
        10 * pow10((k - 1) as nat)
    }
}

/// The value of a digit string is below ten to its length.
pub proof fn lemma_digits_val_upper(s: Seq<char>)
    ensures
        digits_val(s) < pow10(s.len()),
    decreases s.len(),
{
    if s.len() == 0 {
    } else {
        let p = s.take(s.len() - 1);
        lemma_digits_val_upper(p);
        assert(digits_val(s) == digits_val(p) * 10 + digit_val(s.last()));
        assert(digit_val(s.last()) < 10);
        assert(pow10(s.len()) == 10 * pow10(p.len()));
        assert(digits_val(p) * 10 + 9 < 10 * pow10(p.len())) by (nonlinear_arith)
            requires
                digits_val(p) < pow10(p.len()),
        ;
    }
}

/// Peeling the leading digit off a digit string.
pub proof fn lemma_digits_val_front(s: Seq<char>)
    requires
        s.len() > 0,
    ensures
        digits_val(s) == digit_val(s[0]) * pow10((s.len() - 1) as nat) + digits_val(s.skip(1)),
    decreases s.len(),
{
    if s.len() == 1 {
        assert(s.take(s.len() - 1) =~= Seq::<char>::empty());
        assert(s.skip(1) =~= Seq::<char>::empty());
        assert(digits_val(s) == digits_val(Seq::<char>::empty()) * 10 + digit_val(s.last()));
        assert(pow10(0) == 1);
        assert(digit_val(s[0]) * 1 == digit_val(s[0]));
    } else {
        let n = s.len() as int;
        let p = s.take(n - 1);
        let t = s.skip(1);
        lemma_digits_val_front(p);
        assert(p.skip(1) =~= t.take(t.len() - 1));
        assert(t.last() == s.last());
        let d0 = digit_val(s[0]);
        let pw = pow10((n - 2) as nat);
        assert(digits_val(s) == digits_val(p) * 10 + digit_val(s.last()));
        assert(digits_val(p) == d0 * pw + digits_val(p.skip(1)));
        assert(digits_val(t) == digits_val(p.skip(1)) * 10 + digit_val(s.last()));
        assert((d0 * pw + digits_val(p.skip(1))) * 10 + digit_val(s.last()) == d0 * (10 * pw) + (
        digits_val(p.skip(1)) * 10 + digit_val(s.last()))) by (nonlinear_arith);
        assert(pow10((n - 1) as nat) == 10 * pw);
    }
}

/// A leading zero does not change the value.
pub proof fn lemma_digits_val_leading_zero(s: Seq<char>)
    requires
        s.len() > 0,
        s[0] == '0',
    ensures
        digits_val(s) == digits_val(s.skip(1)),
{
    lemma_digits_val_front(s);
    assert(digit_val('0') == 0);
    assert(0 * pow10((s.len() - 1) as nat) == 0) by (nonlinear_arith);
}

/// A digit string with a non-zero leading digit has value at least ten to
/// one less than its length.
pub proof fn lemma_digits_val_lower_pow(s: Seq<char>)
    requires
        is_digits(s),
        s[0] != '0',
    ensures
        digits_val(s) >= pow10((s.len() - 1) as nat),
{
    lemma_digits_val_front(s);
    lemma_digit_cases(s[0]);
    assert(digit_val(s[0]) >= 1);
    assert(digit_val(s[0]) * pow10((s.len() - 1) as nat) >= pow10((s.len() - 1) as nat))
        by (nonlinear_arith)
        requires
            digit_val(s[0]) >= 1,
    ;
}

pub proof fn lemma_pow10_increases(a: nat, b: nat)
    requires
        a <= b,
    ensures
        pow10(a) <= pow10(b),
    decreases b,
{
    if a < b {
        lemma_pow10_increases(a, (b - 1) as nat);
    }
}

/// The first index where `c` occurs, or the length if it does not.
pub open spec fn find_first(s: Seq<char>, c: char) -> int
    decreases s.len(),
{
    if s.len() == 0 {
        0
    } else if s[0] == c {
        0
    } else {
        1 + find_first(s.skip(1), c)
    }
}

pub proof fn lemma_find_first(s: Seq<char>, c: char)
    ensures
        0 <= find_first(s, c) <= s.len(),
        find_first(s, c) < s.len() ==> s[find_first(s, c)] == c,
        forall|j: int| 0 <= j < find_first(s, c) ==> s[j] != c,
    decreases s.len(),
{
    if s.len() == 0 {
    } else if s[0] == c {
    } else {
        lemma_find_first(s.skip(1), c);
        assert(forall|j: int| 1 <= j < find_first(s, c) ==> s[j] == s.skip(1)[j - 1]);
    }
}

pub proof fn lemma_find_first_is(s: Seq<char>, c: char, i: int)
    requires
        0 <= i <= s.len(),
        i < s.len() ==> s[i] == c,
        forall|j: int| 0 <= j < i ==> s[j] != c,
    ensures
        find_first(s, c) == i,
    decreases s.len(),
{
    if s.len() == 0 {
    } else if s[0] == c {
    } else {
        lemma_find_first_is(s.skip(1), c, if i == s.len() { i - 1 } else { i - 1 });
    }
}

/// Finds the first occurrence of `c` in `s` within `[from, to)`, returning
/// its index, or `to` if there is none.
pub fn find_char_in(s: &str, from: usize, to: usize, c: char) -> (r: usize)
    requires
        from <= to <= s@.len(),
    ensures
        from <= r <= to,
        r - from == find_first(s@.subrange(from as int, to as int), c),
        r < to ==> s@[r as int] == c,
        forall|j: int| from <= j < r ==> s@[j] != c,
{
    let ghost sub = s@.subrange(from as int, to as int);
    let mut i = from;
    while i < to
        invariant
            from <= i <= to <= s@.len(),
            forall|j: int| from <= j < i ==> s@[j] != c,
            sub == s@.subrange(from as int, to as int),
        decreases to - i,
    {
        if s.get_char(i) == c {
            proof {
                assert(forall|j: int| 0 <= j < i - from ==> sub[j] != c);
                lemma_find_first_is(sub, c, i - from);
            }
            return i;
        }
        i = i + 1;
    }
    proof {
        assert(forall|j: int| 0 <= j < sub.len() ==> sub[j] != c);
        lemma_find_first_is(sub, c, sub.len() as int);
    }
    to
}

/// Decides whether `s[from..to]` is a single prerelease identifier
/// (`pre` true) or a single build-metadata identifier (`pre` false).
pub fn check_ident_seg(s: &str, from: usize, to: usize, pre: bool) -> (r: bool)
    requires
        from <= to <= s@.len(),
    ensures
        pre ==> r == is_prerelease_ident(s@.subrange(from as int, to as int)),
        !pre ==> r == is_build_ident(s@.subrange(from as int, to as int)),
{
    let ghost sub = s@.subrange(from as int, to as int);
    if from == to {
        proof {
            assert(!is_digits(sub) && !is_alphanum_ident(sub) && !is_build_ident(sub));
        }
        return false;
    }
    let mut i = from;
    let mut all_ident = true;
    let mut all_digit = true;
    while i < to
        invariant
            from <= i <= to <= s@.len(),
            sub == s@.subrange(from as int, to as int),
            all_ident == forall|j: int| from <= j < i ==> spec_is_ident_char(s@[j]),
            all_digit == forall|j: int| from <= j < i ==> spec_is_digit(s@[j]),
        decreases to - i,
    {
        let ch = s.get_char(i);
        if !is_ident_char(ch) {
            all_ident = false;
        }
        if !is_digit_char(ch) {
            all_digit = false;
        }
        i = i + 1;
    }
    proof {
        assert(forall|j: int| 0 <= j < sub.len() ==> sub[j] == s@[from + j]);
    }
    if !all_ident {
        proof {
            let j = choose|j: int| from <= j < to && !spec_is_ident_char(s@[j]);
            assert(!spec_is_ident_char(sub[j - from]));
        }
        return false;
    }
    if !pre {
        return true;
    }
    if all_digit {
        // numeric identifier: no leading zero unless it is exactly "0"
        let first = s.get_char(from);
        let ok = to - from == 1 || first != '0';
        proof {
            if !ok {
                assert(sub[0] == '0' && sub.len() > 1);
                assert(!is_numeric_field(sub));
                assert(forall|j: int| 0 <= j < sub.len() ==> spec_is_digit(sub[j]));
                assert(!is_alphanum_ident(sub));
            }
        }
        ok
    } else {
        proof {
            let j = choose|j: int| from <= j < to && !spec_is_digit(s@[j]);
            assert(!spec_is_digit(sub[j - from]));
            assert(!is_digits(sub));
        }
        true
    }
}

/// Decides whether `s[from..to]` is a non-empty dot-separated list of valid
/// identifiers: prerelease identifiers if `pre`, build identifiers if not.
pub fn check_ident_text(s: &str, from: usize, to: usize, pre: bool) -> (r: bool)
    requires
        from <= to <= s@.len(),
    ensures
        pre ==> r == is_prerelease_text(s@.subrange(from as int, to as int)),
        !pre ==> r == is_build_text(s@.subrange(from as int, to as int)),
    decreases to - from,
{
    let ghost sub = s@.subrange(from as int, to as int);
    let dot = find_char_in(s, from, to, '.');
    if dot < to {
        let ghost head = s@.subrange(from as int, dot as int);
        let ghost rsub = s@.subrange(dot as int + 1, to as int);
        proof {
            lemma_split_dots_first(sub, dot - from);
            assert(sub.take(dot - from) =~= head);
            assert(sub.skip(dot - from + 1) =~= rsub);
            assert(split_dots(sub) =~= seq![head] + split_dots(rsub));
        }
        let head_ok = check_ident_seg(s, from, dot, pre);
        if !head_ok {
            proof {
                assert(split_dots(sub)[0] == head);
            }
            return false;
        }
        let rest_ok = check_ident_text(s, dot + 1, to, pre);
        proof {
            let parts = split_dots(sub);
            let rparts = split_dots(rsub);
            assert(forall|i: int| 0 <= i < rparts.len() ==> parts[i + 1] == rparts[i]);
            if pre {
                if rest_ok {
                    assert forall|i: int| 0 <= i < parts.len() implies is_prerelease_ident(
                        #[trigger] parts[i],
                    ) by {
                        if i >= 1 {
                            assert(parts[i] == rparts[i - 1]);
                        } else {
                            assert(parts[0] == head);
                        }
                    }
                } else {
                    let i = choose|i: int|
                        0 <= i < rparts.len() && !is_prerelease_ident(#[trigger] rparts[i]);
                    assert(!is_prerelease_ident(parts[i + 1]));
                }
            } else {
                if rest_ok {
                    assert forall|i: int| 0 <= i < parts.len() implies is_build_ident(
                        #[trigger] parts[i],
                    ) by {
                        if i >= 1 {
                            assert(parts[i] == rparts[i - 1]);
                        } else {
                            assert(parts[0] == head);
                        }
                    }
                } else {
                    let i = choose|i: int|
                        0 <= i < rparts.len() && !is_build_ident(#[trigger] rparts[i]);
                    assert(!is_build_ident(parts[i + 1]));
                }
            }
        }
        rest_ok
    } else {
        proof {
            lemma_split_dots_whole(sub);
            assert(split_dots(sub) =~= seq![sub]);
            assert(split_dots(sub)[0] == sub);
            assert(split_dots(sub).len() == 1);
        }
        let r = check_ident_seg(s, from, to, pre);
        proof {
            if pre {
                if r {
                    assert forall|i: int| 0 <= i < split_dots(sub).len() implies is_prerelease_ident(
                        #[trigger] split_dots(sub)[i],
                    ) by {
                        assert(split_dots(sub)[i] == sub);
                    }
                } else {
                    assert(!is_prerelease_ident(split_dots(sub)[0]));
                }
            } else {
                if r {
                    assert forall|i: int| 0 <= i < split_dots(sub).len() implies is_build_ident(
                        #[trigger] split_dots(sub)[i],
                    ) by {
                        assert(split_dots(sub)[i] == sub);
                    }
                } else {
                    assert(!is_build_ident(split_dots(sub)[0]));
                }
            }
        }
        r
    }
}

/// Parses `s[from..to]` as a numeric version field: digits without a leading
/// zero, whose value fits in `u32`.
pub fn parse_num_field(s: &str, from: usize, to: usize) -> (r: Option<u32>)
    requires
        from <= to <= s@.len(),
    ensures
        match r {
            Some(n) => is_numeric_field(s@.subrange(from as int, to as int)) && n as nat
                == digits_val(s@.subrange(from as int, to as int)),
            None => !(is_numeric_field(s@.subrange(from as int, to as int)) && digits_val(
                s@.subrange(from as int, to as int),
            ) <= u32::MAX),
        },
{
    let ghost sub = s@.subrange(from as int, to as int);
    if from == to {
        return None;
    }
    if to - from > 1 && s.get_char(from) == '0' {
        proof {
            assert(sub[0] == '0' && sub.len() > 1);
        }
        return None;
    }
    let mut i = from;
    let mut acc: u64 = 0;
    while i < to
        invariant
            from <= i <= to <= s@.len(),
            sub == s@.subrange(from as int, to as int),
            forall|j: int| from <= j < i ==> spec_is_digit(s@[j]),
            acc as nat == digits_val(sub.take(i - from)),
            acc <= u32::MAX,
        decreases to - i,
    {
        let ch = s.get_char(i);
        if !is_digit_char(ch) {
            proof {
                assert(!spec_is_digit(sub[i - from]));
            }
            return None;
        }
        let d: u64 = digit_value(ch) as u64;
        proof {
            lemma_digit_char_val(s@[i as int]);
            assert(sub.take(i + 1 - from).take(i - from) =~= sub.take(i - from));
            assert(sub.take(i + 1 - from).last() == sub[i - from]);
        }
        let next = acc * 10 + d;
        if next > u32::MAX as u64 {
            proof {
                lemma_digits_val_prefix_le(sub, i + 1 - from);
            }
            return None;
        }
        acc = next;
        i = i + 1;
    }
    proof {
        assert(sub.take(to - from) =~= sub);
    }
    Some(acc as u32)
}

/// The value of a digit string is at least the value of any of its prefixes.
proof fn lemma_digits_val_prefix_le(s: Seq<char>, k: int)
    requires
        0 <= k <= s.len(),
    ensures
        digits_val(s.take(k)) <= digits_val(s),
    decreases s.len() - k,
{
    if k < s.len() {
        lemma_digits_val_prefix_le(s, k + 1);
        let t = s.take(k + 1);
        assert(t.take(t.len() - 1) =~= s.take(k));
        assert(digits_val(t) == digits_val(s.take(k)) * 10 + digit_val(t.last()));
        assert(digits_val(s.take(k)) * 10 >= digits_val(s.take(k))) by (nonlinear_arith);
    } else {
        assert(s.take(k) =~= s);
    }
}

/// A one-character string for a single digit.
pub fn digit_str(d: u32) -> (r: &'static str)
    requires
        d < 10,
    ensures
        r@ =~= seq![digit_char(d as nat)],
{
    proof {
        reveal_strlit("0");
        reveal_strlit("1");
        reveal_strlit("2");
        reveal_strlit("3");
        reveal_strlit("4");
        reveal_strlit("5");
        reveal_strlit("6");
        reveal_strlit("7");
        reveal_strlit("8");
        reveal_strlit("9");
    }
    if d == 0 {
        "0"
    } else if d == 1 {
        "1"
    } else if d == 2 {
        "2"
    } else if d == 3 {
        "3"
    } else if d == 4 {
        "4"
    } else if d == 5 {
        "5"
    } else if d == 6 {
        "6"
    } else if d == 7 {
        "7"
    } else if d == 8 {
        "8"
    } else {
        "9"
    }
}

/// Renders a number in decimal.
pub fn u32_string(n: u32) -> (r: String)
    ensures
        r@ =~= dec_digits(n as nat),
    decreases n,
{
    if n < 10 {
        let mut out = String::new();
        out.append(digit_str(n));
        out
    } else {
        let mut out = u32_string(n / 10);
        out.append(digit_str(n % 10));
        out
    }
}

/// Code-point comparison of two character sequences.
pub open spec fn cmp_chars(a: Seq<char>, b: Seq<char>) -> Ordering
    decreases a.len(),
{
    if a.len() == 0 && b.len() == 0 {
        Ordering::Equal
    } else if a.len() == 0 {
        Ordering::Less
    } else if b.len() == 0 {
        Ordering::Greater
    } else if a[0] < b[0] {
        Ordering::Less
    } else if b[0] < a[0] {
        Ordering::Greater
    } else {
        cmp_chars(a.skip(1), b.skip(1))
    }
}

/// Dropping a common prefix does not change the comparison.
pub proof fn lemma_cmp_chars_skip(a: Seq<char>, b: Seq<char>, k: int)
    requires
        0 <= k <= a.len(),
        0 <= k <= b.len(),
        forall|j: int| 0 <= j < k ==> a[j] == b[j],
    ensures
        cmp_chars(a, b) == cmp_chars(a.skip(k), b.skip(k)),
    decreases k,
{
    if k > 0 {
        assert(a[0] == b[0]);
        assert(forall|j: int| 0 <= j < k - 1 ==> a.skip(1)[j] == b.skip(1)[j]);
        lemma_cmp_chars_skip(a.skip(1), b.skip(1), k - 1);
        assert(a.skip(1).skip(k - 1) =~= a.skip(k));
        assert(b.skip(1).skip(k - 1) =~= b.skip(k));
        assert(a.len() > 0 && b.len() > 0);
        assert(cmp_chars(a, b) == cmp_chars(a.skip(1), b.skip(1)));
    } else {
        assert(a.skip(0) =~= a);
        assert(b.skip(0) =~= b);
    }
}

/// On equally long digit strings, code-point order is numeric order.
pub proof fn lemma_digits_cmp(a: Seq<char>, b: Seq<char>)
    requires
        is_digits(a),
        is_digits(b),
        a.len() == b.len(),
    ensures
        (digits_val(a) < digits_val(b) <==> cmp_chars(a, b) == Ordering::Less),
        (digits_val(a) == digits_val(b) <==> cmp_chars(a, b) == Ordering::Equal),
        (digits_val(a) > digits_val(b) <==> cmp_chars(a, b) == Ordering::Greater),
    decreases a.len(),
{
    lemma_digits_val_front(a);
    lemma_digits_val_front(b);
    lemma_digit_cases(a[0]);
    lemma_digit_cases(b[0]);
    let p = pow10((a.len() - 1) as nat);
    let ra = digits_val(a.skip(1));
    let rb = digits_val(b.skip(1));
    lemma_digits_val_upper(a.skip(1));
    lemma_digits_val_upper(b.skip(1));
    assert(a.skip(1).len() == a.len() - 1);
    assert(ra < p && rb < p);
    if a[0] == b[0] {
        assert(cmp_chars(a, b) == cmp_chars(a.skip(1), b.skip(1)));
        assert(digits_val(a) == digit_val(a[0]) * p + ra);
        assert(digits_val(b) == digit_val(a[0]) * p + rb);
        if a.len() == 1 {
            assert(a.skip(1).len() == 0 && b.skip(1).len() == 0);
            assert(cmp_chars(a.skip(1), b.skip(1)) == Ordering::Equal);
            assert(ra == 0 && rb == 0);
        } else {
            assert(is_digits(a.skip(1)));
            assert(is_digits(b.skip(1)));
            lemma_digits_cmp(a.skip(1), b.skip(1));
        }
    } else {
        let da = digit_val(a[0]);
        let db = digit_val(b[0]);
        assert(da != db);
        if da < db {
            assert(a[0] < b[0]);
            assert(da * p + ra < db * p + rb) by (nonlinear_arith)
                requires
                    da < db,
                    ra < p,
                    0 <= rb,
                    p > 0,
            ;
        } else {
            assert(b[0] < a[0]);
            assert(db * p + rb < da * p + ra) by (nonlinear_arith)
                requires
                    db < da,
                    rb < p,
                    0 <= ra,
                    p > 0,
            ;
        }
    }
}

/// Leading zeros do not change the value.
pub proof fn lemma_digits_val_strip(s: Seq<char>, k: int)
    requires
        0 <= k <= s.len(),
        forall|j: int| 0 <= j < k ==> s[j] == '0',
    ensures
        digits_val(s.skip(k)) == digits_val(s),
    decreases k,
{
    if k > 0 {
        lemma_digits_val_leading_zero(s);
        lemma_digits_val_strip(s.skip(1), k - 1);
        assert(s.skip(1).skip(k - 1) =~= s.skip(k));
        assert(forall|j: int| 0 <= j < k - 1 ==> s.skip(1)[j] == '0');
    } else {
        assert(s.skip(0) =~= s);
    }
}

/// A shorter digit string without leading zeros has a smaller value than a
/// longer one.
pub proof fn lemma_digits_len_cmp(a: Seq<char>, b: Seq<char>)
    requires
        is_digits(a),
        is_digits(b),
        a.len() < b.len(),
        b[0] != '0',
    ensures
        digits_val(a) < digits_val(b),
{
    lemma_digits_val_upper(a);
    lemma_digits_val_lower_pow(b);
    lemma_pow10_increases(a.len(), (b.len() - 1) as nat);
}

/// Numeric order as an `Ordering`.
pub open spec fn cmp_nat(a: nat, b: nat) -> Ordering {
    if a < b {
        Ordering::Less
    } else if a == b {
        Ordering::Equal
    } else {
        Ordering::Greater
    }
}

/// Decides whether `s[from..to]` is a non-empty run of digits.
pub fn is_digits_range(s: &str, from: usize, to: usize) -> (r: bool)
    requires
        from <= to <= s@.len(),
    ensures
        r == is_digits(s@.subrange(from as int, to as int)),
{
    let ghost sub = s@.subrange(from as int, to as int);
    if from == to {
        return false;
    }
    let mut i = from;
    while i < to
        invariant
            from <= i <= to <= s@.len(),
            sub == s@.subrange(from as int, to as int),
            forall|j: int| from <= j < i ==> spec_is_digit(s@[j]),
        decreases to - i,
    {
        if !is_digit_char(s.get_char(i)) {
            proof {
                assert(!spec_is_digit(sub[i - from]));
            }
            return false;
        }
        i = i + 1;
    }
    proof {
        assert(forall|j: int| 0 <= j < sub.len() ==> sub[j] == s@[from + j]);
    }
    true
}

/// Compares `a[af..at]` and `b[bf..bt]` by code points.
pub fn cmp_chars_range(a: &str, af: usize, at: usize, b: &str, bf: usize, bt: usize) -> (r:
    Ordering)
    requires
        af <= at <= a@.len(),
        bf <= bt <= b@.len(),
    ensures
        r == cmp_chars(a@.subrange(af as int, at as int), b@.subrange(bf as int, bt as int)),
{
    let ghost asub = a@.subrange(af as int, at as int);
    let ghost bsub = b@.subrange(bf as int, bt as int);
    let mut i: usize = 0;
    while af + i < at && bf + i < bt
        invariant
            af <= at <= a@.len(),
            bf <= bt <= b@.len(),
            i <= at - af,
            i <= bt - bf,
            asub == a@.subrange(af as int, at as int),
            bsub == b@.subrange(bf as int, bt as int),
            forall|j: int| 0 <= j < i ==> asub[j] == bsub[j],
        decreases at - af - i,
    {
        let ca = a.get_char(af + i);
        let cb = b.get_char(bf + i);
        proof {
            lemma_cmp_chars_skip(asub, bsub, i as int);
            assert(asub.skip(i as int)[0] == asub[i as int]);
            assert(bsub.skip(i as int)[0] == bsub[i as int]);
        }
        if ca < cb {
            return Ordering::Less;
        }
        if cb < ca {
            return Ordering::Greater;
        }
        i = i + 1;
    }
    proof {
        lemma_cmp_chars_skip(asub, bsub, i as int);
    }
    if af + i < at {
        Ordering::Greater
    } else if bf + i < bt {
        Ordering::Less
    } else {
        Ordering::Equal
    }
}

/// Compares `a[af..at]` and `b[bf..bt]` as decimal numbers: both must be
/// digit runs; leading zeros are immaterial.
pub fn cmp_numeric_range(a: &str, af: usize, at: usize, b: &str, bf: usize, bt: usize) -> (r:
    Ordering)
    requires
        af <= at <= a@.len(),
        bf <= bt <= b@.len(),
        is_digits(a@.subrange(af as int, at as int)),
        is_digits(b@.subrange(bf as int, bt as int)),
    ensures
        r == cmp_nat(
            digits_val(a@.subrange(af as int, at as int)),
            digits_val(b@.subrange(bf as int, bt as int)),
        ),
{
    let ghost asub = a@.subrange(af as int, at as int);
    let ghost bsub = b@.subrange(bf as int, bt as int);
    proof {
        assert(forall|j: int| 0 <= j < asub.len() ==> asub[j] == a@[af + j]);
        assert(forall|j: int| 0 <= j < bsub.len() ==> bsub[j] == b@[bf + j]);
    }
    let mut sa = af;
    while sa + 1 < at && a.get_char(sa) == '0'
        invariant
            af <= sa < at <= a@.len(),
            forall|j: int| af <= j < sa ==> a@[j] == '0',
        decreases at - sa,
    {
        sa = sa + 1;
    }
    let mut sb = bf;
    while sb + 1 < bt && b.get_char(sb) == '0'
        invariant
            bf <= sb < bt <= b@.len(),
            forall|j: int| bf <= j < sb ==> b@[j] == '0',
        decreases bt - sb,
    {
        sb = sb + 1;
    }
    let ghost astr = a@.subrange(sa as int, at as int);
    let ghost bstr = b@.subrange(sb as int, bt as int);
    proof {
        assert(astr =~= asub.skip(sa - af));
        assert(bstr =~= bsub.skip(sb - bf));
        assert(forall|j: int| 0 <= j < sa - af ==> asub[j] == '0');
        assert(forall|j: int| 0 <= j < sb - bf ==> bsub[j] == '0');
        lemma_digits_val_strip(asub, sa - af);
        lemma_digits_val_strip(bsub, sb - bf);
        assert(is_digits(astr));
        assert(is_digits(bstr));
    }
    let la = at - sa;
    let lb = bt - sb;
    if la < lb {
        proof {
            assert(bstr[0] == b@[sb as int]);
            assert(bstr[0] != '0');
            lemma_digits_len_cmp(astr, bstr);
        }
        Ordering::Less
    } else if lb < la {
        proof {
            assert(astr[0] == a@[sa as int]);
            assert(astr[0] != '0');
            lemma_digits_len_cmp(bstr, astr);
        }
        Ordering::Greater
    } else {
        proof {
            lemma_digits_cmp(astr, bstr);
        }
        cmp_chars_range(a, sa, at, b, sb, bt)
    }
}

/// Exact equality of two texts.
pub fn str_eq(a: &str, b: &str) -> (r: bool)
    ensures
        r == (a@ == b@),
{
    let n = a.unicode_len();
    let m = b.unicode_len();
    if n != m {
        proof {
            assert(a@ != b@);
        }
        return false;
    }
    let mut i: usize = 0;
    while i < n
        invariant
            n == a@.len(),
            n == b@.len(),
            i <= n,
            forall|j: int| 0 <= j < i ==> a@[j] == b@[j],
        decreases n - i,
    {
        if a.get_char(i) != b.get_char(i) {
            return false;
        }
        i = i + 1;
    }
    proof {
        assert(a@ =~= b@);
    }
    true
}

/// Whether `p` is a prefix of `s`.
pub fn str_starts_with(s: &str, p: &str) -> (r: bool)
    ensures
        r == (s@.len() >= p@.len() && s@.take(p@.len() as int) == p@),
{
    let n = s.unicode_len();
    let m = p.unicode_len();
    if n < m {
        return false;
    }
    let mut i: usize = 0;
    while i < m
        invariant
            m <= n,
            n == s@.len(),
            m == p@.len(),
            i <= m,
            forall|j: int| 0 <= j < i ==> s@[j] == p@[j],
        decreases m - i,
    {
        if s.get_char(i) != p.get_char(i) {
            proof {
                assert(s@.take(m as int)[i as int] != p@[i as int]);
            }
            return false;
        }
        i = i + 1;
    }
    proof {
        assert(s@.take(m as int) =~= p@);
    }
    true
}

/// The numeric value of a single digit character.
pub fn digit_value(c: char) -> (r: u32)
    requires
        spec_is_digit(c),
    ensures
        r as nat == digit_val(c),
        r < 10,
{
    proof {
        lemma_digit_cases(c);
    }
    if c == '0' {
        0
    } else if c == '1' {
        1
    } else if c == '2' {
        2
    } else if c == '3' {
        3
    } else if c == '4' {
        4
    } else if c == '5' {
        5
    } else if c == '6' {
        6
    } else if c == '7' {
        7
    } else if c == '8' {
        8
    } else {
        9
    }
}

} // verus!
