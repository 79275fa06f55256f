//! Verified character-level text utilities for the header grammar: trimming,
//! substring search, separator splitting and unsigned decimal parsing.

use vstd::prelude::*;

verus! {

/// The characters of Unicode's White_Space set, as `char::is_whitespace`
/// recognizes them.
pub open spec fn is_space(c: char) -> bool {
    c == ' ' || c == '\t' || c == '\n' || c == '\r' || c == '\u{0B}' || c == '\u{0C}' || c
        == '\u{85}' || c == '\u{A0}' || c == '\u{1680}' || c == '\u{2000}' || c == '\u{2001}' || c
        == '\u{2002}' || c == '\u{2003}' || c == '\u{2004}' || c == '\u{2005}' || c == '\u{2006}'
        || c == '\u{2007}' || c == '\u{2008}' || c == '\u{2009}' || c == '\u{200A}' || c
        == '\u{2028}' || c == '\u{2029}' || c == '\u{202F}' || c == '\u{205F}' || c == '\u{3000}'
}

fn is_space_char(c: char) -> (r: bool)
    ensures
        r == is_space(c),
{
    c == ' ' || c == '\t' || c == '\n' || c == '\r' || c == '\u{0B}' || c == '\u{0C}' || c
        == '\u{85}' || c == '\u{A0}' || c == '\u{1680}' || c == '\u{2000}' || c == '\u{2001}' || c
        == '\u{2002}' || c == '\u{2003}' || c == '\u{2004}' || c == '\u{2005}' || c == '\u{2006}'
        || c == '\u{2007}' || c == '\u{2008}' || c == '\u{2009}' || c == '\u{200A}' || c
        == '\u{2028}' || c == '\u{2029}' || c == '\u{202F}' || c == '\u{205F}' || c == '\u{3000}'
}

/// The input with leading and trailing whitespace removed.
pub open spec fn spec_trim(s: Seq<char>) -> Seq<char>
    decreases s.len(),
{
    if s.len() == 0 {
        s
    } else if is_space(s[0]) {
        spec_trim(s.drop_first())
    } else if is_space(s.last()) {
        spec_trim(s.drop_last())
    } else {
        s
    }
}

/// Trim whitespace from both ends, as `str::trim` does.
pub fn trim_str<'a>(s: &'a str) -> (t: &'a str)
    ensures
        t@ == spec_trim(s@),
{
    let n = s.unicode_len();
    proof {
        assert(s@.subrange(0, n as int) =~= s@);
    }
    let mut a: usize = 0;
    while a < n && is_space_char(s.get_char(a))
        invariant
            n == s@.len(),
            a <= n,
            spec_trim(s@) == spec_trim(s@.subrange(a as int, n as int)),
        decreases n - a,
    {
        proof {
            let sub = s@.subrange(a as int, n as int);
            assert(sub.drop_first() =~= s@.subrange(a as int + 1, n as int));
        }
        a = a + 1;
    }
    let mut b: usize = n;
    while b > a && is_space_char(s.get_char(b - 1))
        invariant
            n == s@.len(),
            a <= b <= n,
            a < n ==> !is_space(s@[a as int]),
            a == n ==> b == n,
            spec_trim(s@) == spec_trim(s@.subrange(a as int, b as int)),
        decreases b,
    {
        proof {
            let sub = s@.subrange(a as int, b as int);
            assert(sub.drop_last() =~= s@.subrange(a as int, b as int - 1));
        }
        b = b - 1;
    }
    let t = s.substring_char(a, b);
    proof {
        let sub = s@.subrange(a as int, b as int);
        if a < b {
            assert(sub[0] == s@[a as int]);
            assert(sub.last() == s@[b as int - 1]);
        }
    }
    t
}

/// Whether `n` occurs as a contiguous run inside `h`.
pub open spec fn contains_seq(h: Seq<char>, n: Seq<char>) -> bool {
    exists|i: int| 0 <= i && i + n.len() <= h.len() && #[trigger] h.subrange(i, i + n.len()) == n
}

/// Whether `n` occurs in `h` starting at position `i`.
pub fn occurs_at(h: &str, n: &str, i: usize) -> (r: bool)
    requires
        i + n@.len() <= h@.len(),
    ensures
        r == (h@.subrange(i as int, i + n@.len()) == n@),
{
    let hl = h.unicode_len();
    let nl = n.unicode_len();
    let mut j: usize = 0;
    while j < nl
        invariant
            hl == h@.len(),
            nl == n@.len(),
            i + nl <= h@.len(),
            j <= nl,
            forall|j2: int| 0 <= j2 < j ==> h@[i + j2] == n@[j2],
        decreases nl - j,
    {
        if h.get_char(i + j) != n.get_char(j) {
            proof {
                assert(h@.subrange(i as int, i + nl)[j as int] == h@[i + j]);
            }
            return false;
        }
        j = j + 1;
    }
    proof {
        assert(h@.subrange(i as int, i + nl) =~= n@);
    }
    true
}

/// Character-wise string equality.
pub fn str_eq(a: &str, b: &str) -> (r: bool)
    ensures
        r == (a@ == b@),
{
    let al = a.unicode_len();
    let bl = b.unicode_len();
    if al != bl {
        return false;
    }
    let r = occurs_at(a, b, 0);
    proof {
        assert(a@.subrange(0, 0 + b@.len() as int) =~= a@);
    }
    r
}

/// Substring search, as `str::contains` with a literal pattern.
pub fn str_contains(h: &str, n: &str) -> (r: bool)
    ensures
        r == contains_seq(h@, n@),
{
    let hl = h.unicode_len();
    let nl = n.unicode_len();
    if nl > hl {
        return false;
    }
    if nl == 0 {
        proof {
            assert(h@.subrange(0, 0 + n@.len() as int) =~= n@);
        }
        return true;
    }
    let mut i: usize = 0;
    while i <= hl - nl
        invariant
            hl == h@.len(),
            nl == n@.len(),
            0 < nl <= hl,
            i <= hl - nl + 1,
            forall|i2: int| 0 <= i2 < i ==> #[trigger] h@.subrange(i2, i2 + nl) != n@,
        decreases hl - nl + 1 - i,
    {
        if occurs_at(h, n, i) {
            return true;
        }
        i = i + 1;
    }
    proof {
        assert forall|i2: int| 0 <= i2 && i2 + n@.len() <= h@.len() implies #[trigger] h@.subrange(
            i2,
            i2 + n@.len(),
        ) != n@ by {
            assert(i2 < i);
        }
    }
    false
}

/// What stands after the last occurrence of `sep` (the whole input when `sep`
/// does not occur), as `s.split(sep).last()` yields it.
pub open spec fn spec_after_last(s: Seq<char>, sep: char) -> Seq<char>
    decreases s.len(),
{
    if s.len() == 0 {
        Seq::empty()
    } else if s.last() == sep {
        Seq::empty()
    } else {
        spec_after_last(s.drop_last(), sep).push(s.last())
    }
}

proof fn lemma_after_last_at(s: Seq<char>, sep: char, k: int)
    requires
        0 <= k < s.len(),
        s[k] == sep,
        forall|j: int| k < j < s.len() ==> s[j] != sep,
    ensures
        spec_after_last(s, sep) == s.subrange(k + 1, s.len() as int),
    decreases s.len(),
{
    if k == s.len() - 1 {
        assert(spec_after_last(s, sep) =~= s.subrange(k + 1, s.len() as int));
    } else {
        assert(s.drop_last()[k] == sep);
        lemma_after_last_at(s.drop_last(), sep, k);
        assert(spec_after_last(s, sep) =~= s.subrange(k + 1, s.len() as int));
    }
}

proof fn lemma_after_last_none(s: Seq<char>, sep: char)
    requires
        forall|j: int| 0 <= j < s.len() ==> s[j] != sep,
    ensures
        spec_after_last(s, sep) == s,
    decreases s.len(),
{
    if s.len() > 0 {
        lemma_after_last_none(s.drop_last(), sep);
        assert(spec_after_last(s, sep) =~= s);
    }
}

/// The substring after the last occurrence of `sep` (the whole input when
/// `sep` does not occur).
pub fn after_last<'a>(s: &'a str, sep: char) -> (t: &'a str)
    ensures
        t@ == spec_after_last(s@, sep),
{
    let n = s.unicode_len();
    let mut b: usize = n;
    while b > 0
        invariant
            n == s@.len(),
            b <= n,
            forall|j: int| b <= j < n ==> s@[j] != sep,
        decreases b,
    {
        if s.get_char(b - 1) == sep {
            proof {
                lemma_after_last_at(s@, sep, b as int - 1);
            }
            return s.substring_char(b, n);
        }
        b = b - 1;
    }
    proof {
        lemma_after_last_none(s@, sep);
        assert(s@.subrange(0, n as int) =~= s@);
    }
    s.substring_char(0, n)
}

/// The fields between occurrences of `sep`, in order: one empty field for the
/// empty input, and empty fields around adjacent separators, as `str::split`
/// yields them.
pub open spec fn spec_split(s: Seq<char>, sep: char) -> Seq<Seq<char>>
    decreases s.len(),
{
    if s.len() == 0 {
        seq![Seq::<char>::empty()]
    } else if s[0] == sep {
        seq![Seq::<char>::empty()] + spec_split(s.drop_first(), sep)
    } else {
        let rest = spec_split(s.drop_first(), sep);
        rest.update(0, seq![s[0]] + rest[0])
    }
}

pub proof fn lemma_split_len(s: Seq<char>, sep: char)
    ensures
        spec_split(s, sep).len() >= 1,
    decreases s.len(),
{
    if s.len() > 0 {
        lemma_split_len(s.drop_first(), sep);
    }
}

proof fn lemma_split_none(s: Seq<char>, sep: char)
    requires
        forall|j: int| 0 <= j < s.len() ==> s[j] != sep,
    ensures
        spec_split(s, sep) == seq![s],
    decreases s.len(),
{
    if s.len() > 0 {
        assert forall|j: int| 0 <= j < s.drop_first().len() implies s.drop_first()[j] != sep by {
            assert(s.drop_first()[j] == s[j + 1]);
        }
        lemma_split_none(s.drop_first(), sep);
        assert(seq![s[0]] + s.drop_first() =~= s);
        assert(spec_split(s, sep) =~~= seq![s]);
    } else {
        assert(s =~= Seq::<char>::empty());
        assert(spec_split(s, sep) =~~= seq![s]);
    }
}

proof fn lemma_split_first(t1: Seq<char>, t2: Seq<char>, sep: char)
    requires
        forall|j: int| 0 <= j < t1.len() ==> t1[j] != sep,
    ensures
        spec_split(t1 + seq![sep] + t2, sep) == seq![t1] + spec_split(t2, sep),
    decreases t1.len(),
{
    let s = t1 + seq![sep] + t2;
    if t1.len() == 0 {
        assert(s[0] == sep);
        assert(s.drop_first() =~= t2);
        assert(spec_split(s, sep) =~~= seq![t1] + spec_split(t2, sep));
    } else {
        assert(s[0] == t1[0]);
        assert(s[0] != sep);
        assert forall|j: int| 0 <= j < t1.drop_first().len() implies t1.drop_first()[j] != sep by {
            assert(t1.drop_first()[j] == t1[j + 1]);
        }
        lemma_split_first(t1.drop_first(), t2, sep);
        assert(s.drop_first() =~= t1.drop_first() + seq![sep] + t2);
        let rest = spec_split(s.drop_first(), sep);
        assert(rest == seq![t1.drop_first()] + spec_split(t2, sep));
        lemma_split_len(t2, sep);
        assert(rest[0] == t1.drop_first());
        assert(seq![t1[0]] + t1.drop_first() =~= t1);
        assert(spec_split(s, sep) =~~= seq![t1] + spec_split(t2, sep));
    }
}

/// The views of a sequence of owned strings.
pub open spec fn views_of(v: Seq<String>) -> Seq<Seq<char>> {
    v.map_values(|t: String| t@)
}

/// Split on a separator character, as `str::split` collected into a vector.
pub fn split_str(s: &str, sep: char) -> (v: Vec<String>)
    ensures
        views_of(v@) == spec_split(s@, sep),
        v@.len() >= 1,
{
    let n = s.unicode_len();
    let mut v: Vec<String> = Vec::new();
    let mut start: usize = 0;
    let mut i: usize = 0;
    proof {
        assert(views_of(v@) =~= Seq::<Seq<char>>::empty());
        assert(s@.subrange(0, n as int) =~= s@);
    }
    while i < n
        invariant
            n == s@.len(),
            start <= i <= n,
            forall|j: int| start <= j < i ==> s@[j] != sep,
            views_of(v@) + spec_split(s@.subrange(start as int, n as int), sep) == spec_split(
                s@,
                sep,
            ),
        decreases n - i,
    {
        if s.get_char(i) == sep {
            let tok = s.substring_char(start, i).to_owned();
            proof {
                let seg = s@.subrange(start as int, i as int);
                let rest = s@.subrange(i as int + 1, n as int);
                assert(s@.subrange(start as int, n as int) =~= seg + seq![sep] + rest);
                lemma_split_first(seg, rest, sep);
                assert(views_of(v@.push(tok)) =~= views_of(v@).push(seg));
                assert(views_of(v@).push(seg) + spec_split(rest, sep) =~= views_of(v@) + (seq![seg]
                    + spec_split(rest, sep)));
            }
            v.push(tok);
            start = i + 1;
        }
        i = i + 1;
    }
    let tok = s.substring_char(start, n).to_owned();
    proof {
        let seg = s@.subrange(start as int, n as int);
        lemma_split_none(seg, sep);
        assert(views_of(v@.push(tok)) =~= views_of(v@).push(seg));
        assert(views_of(v@).push(seg) =~= views_of(v@) + seq![seg]);
    }
    v.push(tok);
    v
}

/// An ASCII decimal digit.
pub open spec fn is_digit(c: char) -> bool {
    48 <= (c as u32) && (c as u32) <= 57
}

/// The numeric value of a digit character.
pub open spec fn digit_val(c: char) -> int {
    c as u32 - 48
}

/// The value of a digit string, most significant first.
pub open spec fn spec_digits_val(s: Seq<char>) -> int
    decreases s.len(),
{
    if s.len() == 0 {
        0
    } else {
        spec_digits_val(s.drop_last()) * 10 + digit_val(s.last())
    }
}

proof fn lemma_digits_val_nonneg(s: Seq<char>)
    requires
        forall|j: int| 0 <= j < s.len() ==> is_digit(#[trigger] s[j]),
    ensures
        spec_digits_val(s) >= 0,
    decreases s.len(),
{
    if s.len() > 0 {
        lemma_digits_val_nonneg(s.drop_last());
    }
}

proof fn lemma_digits_val_mono(s: Seq<char>, i: int)
    requires
        forall|j: int| 0 <= j < s.len() ==> is_digit(#[trigger] s[j]),
        0 <= i <= s.len(),
    ensures
        spec_digits_val(s.take(i)) <= spec_digits_val(s),
    decreases s.len(),
{
    if i == s.len() {
        assert(s.take(i) =~= s);
    } else {
        assert(s.take(i) =~= s.drop_last().take(i));
        lemma_digits_val_mono(s.drop_last(), i);
        lemma_digits_val_nonneg(s.drop_last());
    }
}

/// The value of a digit-only run: `None` when empty, when a non-digit
/// occurs, or when the value does not fit in `u32`.
pub open spec fn spec_parse_digits(t: Seq<char>) -> Option<u32> {
    if t.len() == 0 {
        None
    } else if exists|j: int| 0 <= j < t.len() && !is_digit(#[trigger] t[j]) {
        None
    } else if spec_digits_val(t) > u32::MAX {
        None
    } else {
        Some(spec_digits_val(t) as u32)
    }
}

/// What `str::parse::<u32>` accepts: an optional leading `+`, then at least
/// one ASCII digit, the value fitting in `u32`.
pub open spec fn spec_parse_u32(s: Seq<char>) -> Option<u32> {
    spec_parse_digits(
        if s.len() > 0 && s[0] == '+' {
            s.drop_first()
        } else {
            s
        },
    )
}

/// Parse an unsigned decimal number, as `str::parse::<u32>` does.
pub fn parse_u32_str(s: &str) -> (r: Option<u32>)
    ensures
        r == spec_parse_u32(s@),
{
    let n = s.unicode_len();
    let first_plus: bool = n > 0 && s.get_char(0) == '+';
    let i0: usize = if first_plus {
        1
    } else {
        0
    };
    let ghost t = if first_plus {
        s@.drop_first()
    } else {
        s@
    };
    proof {
        assert(t =~= s@.subrange(i0 as int, n as int));
    }
    if i0 >= n {
        return None;
    }
    let mut acc: u32 = 0;
    let mut i: usize = i0;
    while i < n
        invariant
            n == s@.len(),
            i0 <= i <= n,
            i0 < n,
            t == (if s@.len() > 0 && s@[0] == '+' {
                s@.drop_first()
            } else {
                s@
            }),
            t == s@.subrange(i0 as int, n as int),
            t.len() == n - i0,
            forall|j: int| 0 <= j < i - i0 ==> is_digit(#[trigger] t[j]),
            acc == spec_digits_val(t.take(i - i0)),
        decreases n - i,
    {
        let c = s.get_char(i);
        let d: u32 = c as u32;
        if d < 48 || d > 57 {
            proof {
                assert(t[i - i0] == s@[i as int]);
                assert(!is_digit(t[i - i0]));
                assert(spec_parse_digits(t) is None);
            }
            return None;
        }
        let dv: u32 = d - 48;
        if acc > (u32::MAX - dv) / 10 {
            proof {
                let q = (u32::MAX - dv) as int / 10;
                assert((u32::MAX - dv) as int == q * 10 + (u32::MAX - dv) as int % 10);
                assert((u32::MAX - dv) as int % 10 <= 9);
                assert(acc * 10 >= (q + 1) * 10) by (nonlinear_arith)
                    requires
                        acc as int >= q + 1,
                ;
                assert(acc * 10 + dv > u32::MAX);
                assert(t[i - i0] == s@[i as int]);
                assert(t.take(i - i0 + 1).drop_last() =~= t.take(i - i0));
                assert(t.take(i - i0 + 1).last() == t[i - i0]);
                assert(spec_digits_val(t.take(i - i0 + 1)) > u32::MAX);
                if forall|j: int| 0 <= j < t.len() ==> is_digit(#[trigger] t[j]) {
                    lemma_digits_val_mono(t, i - i0 + 1);
                    assert(spec_digits_val(t) > u32::MAX);
                }
                assert(spec_parse_digits(t) is None);
            }
            return None;
        }
        proof {
            assert(t[i - i0] == s@[i as int]);
            assert(t.take(i - i0 + 1).drop_last() =~= t.take(i - i0));
            assert(t.take(i - i0 + 1).last() == t[i - i0]);
        }
        acc = acc * 10 + dv;
        i = i + 1;
    }
    proof {
        assert(t.take(n - i0) =~= t);
        lemma_digits_val_nonneg(t);
        assert(spec_parse_digits(t) == Some(acc));
    }
    Some(acc)
}

} // verus!
