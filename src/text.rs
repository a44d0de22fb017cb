//! Character-level parsing of template names: trailing tokens and decimal numbers.
use vstd::prelude::*;

verus! {

/// The characters for which `char::is_whitespace` holds (Unicode `White_Space`).
pub open spec fn is_space(c: char) -> bool {
    let v = c as u32;
    (9 <= v && v <= 13) || v == 32 || v == 0x85 || v == 0xa0 || v == 0x1680
        || (0x2000 <= v && v <= 0x200a) || v == 0x2028 || v == 0x2029 || v == 0x202f
        || v == 0x205f || v == 0x3000
}

pub open spec fn is_digit(c: char) -> bool {
    '0' <= c && c <= '9'
}

pub open spec fn digit_value(c: char) -> nat {
    (c as u32 - '0' as u32) as nat
}

/// `s` without the run of characters at its end for which `p` holds.
pub open spec fn drop_trailing(s: Seq<char>, p: spec_fn(char) -> bool) -> Seq<char>
    decreases s.len(),
{
    if s.len() > 0 && p(s.last()) {
        drop_trailing(s.drop_last(), p)
    } else {
        s
    }
}

/// The run of characters at the end of `s` for which `p` holds.
pub open spec fn take_trailing(s: Seq<char>, p: spec_fn(char) -> bool) -> Seq<char>
    decreases s.len(),
{
    if s.len() > 0 && p(s.last()) {
        take_trailing(s.drop_last(), p).push(s.last())
    } else {
        Seq::empty()
    }
}

pub open spec fn space() -> spec_fn(char) -> bool {
    |c: char| is_space(c)
}

pub open spec fn non_space() -> spec_fn(char) -> bool {
    |c: char| !is_space(c)
}

pub open spec fn digit() -> spec_fn(char) -> bool {
    |c: char| is_digit(c)
}

pub open spec fn non_digit() -> spec_fn(char) -> bool {
    |c: char| !is_digit(c)
}

/// The last whitespace-separated token of `s`, if it has one.
pub open spec fn last_token(s: Seq<char>) -> Option<Seq<char>> {
    let t = drop_trailing(s, space());
    if t.len() == 0 {
        None
    } else {
        Some(take_trailing(t, non_space()))
    }
}

/// The part of `s` before its first `c`; all of `s` where it holds no `c`.
pub open spec fn before_first(s: Seq<char>, c: char) -> Seq<char>
    decreases s.len(),
{
    if s.len() == 0 {
        s
    } else if s[0] == c {
        Seq::empty()
    } else {
        seq![s[0]] + before_first(s.skip(1), c)
    }
}

/// The last run of ASCII digits in `s` (empty where `s` holds none).
pub open spec fn last_digit_run(s: Seq<char>) -> Seq<char> {
    take_trailing(drop_trailing(s, non_digit()), digit())
}

/// The number of a file or template name such as `Barrel 12.png`: the last run of
/// digits before the first `.`, read as a `u32`.
pub open spec fn barrel_number(name: Seq<char>) -> Option<u32> {
    let run = last_digit_run(before_first(name, '.'));
    if run.len() > 0 {
        parse_u32(run)
    } else {
        None
    }
}

pub open spec fn all_digits(s: Seq<char>) -> bool {
    forall|i: int| 0 <= i < s.len() ==> is_digit(#[trigger] s[i])
}

/// The number written by the decimal digits `s`, most significant first.
pub open spec fn digits_value(s: Seq<char>) -> nat
    decreases s.len(),
{
    if s.len() == 0 {
        0
    } else {
        digits_value(s.drop_last()) * 10 + digit_value(s.last())
    }
}

/// What parsing `s` as a `u32` gives: an optional `+`, then one or more decimal digits
/// whose value fits in 32 bits.
pub open spec fn parse_u32(s: Seq<char>) -> Option<u32> {
    let d = if s.len() > 0 && s[0] == '+' { s.skip(1) } else { s };
    if d.len() > 0 && all_digits(d) && digits_value(d) <= u32::MAX {
        Some(digits_value(d) as u32)
    } else {
        None
    }
}

/// The number at the end of a template name such as `Barrel 12`: its last
/// whitespace-separated token read as a `u32`.
pub open spec fn name_number(name: Seq<char>) -> Option<u32> {
    match last_token(name) {
        Some(t) => parse_u32(t),
        None => None,
    }
}

/// The level of a name: its number, or 0 where it has none.
pub open spec fn name_level(name: Seq<char>) -> u32 {
    match name_number(name) {
        Some(n) => n,
        None => 0,
    }
}

proof fn lemma_digits_value_grows(s: Seq<char>, k: int)
    requires
        0 <= k <= s.len(),
        all_digits(s),
    ensures
        digits_value(s.take(k)) <= digits_value(s),
    decreases s.len(),
{
    if k < s.len() {
        let t = s.drop_last();
        assert(all_digits(t)) by {
            assert forall|i: int| 0 <= i < t.len() implies is_digit(#[trigger] t[i]) by {
                assert(t[i] == s[i]);
            }
        }
        assert(t.take(k) =~= s.take(k));
        lemma_digits_value_grows(t, k);
        assert(s.drop_last() =~= t);
    } else {
        assert(s.take(k) =~= s);
    }
}

proof fn lemma_drop_trailing(s: Seq<char>, p: spec_fn(char) -> bool, k: int)
    requires
        0 <= k <= s.len(),
        forall|i: int| k <= i < s.len() ==> p(#[trigger] s[i]),
        k == 0 || !p(s[k - 1]),
    ensures
        drop_trailing(s, p) == s.take(k),
    decreases s.len(),
{
    if s.len() > k {
        assert(p(s[s.len() - 1]));
        let t = s.drop_last();
        assert forall|i: int| k <= i < t.len() implies p(#[trigger] t[i]) by {
            assert(t[i] == s[i]);
        }
        lemma_drop_trailing(t, p, k);
        assert(t.take(k) =~= s.take(k));
    } else {
        assert(s.take(k) =~= s);
    }
}

proof fn lemma_take_trailing(s: Seq<char>, p: spec_fn(char) -> bool, j: int)
    requires
        0 <= j <= s.len(),
        forall|i: int| j <= i < s.len() ==> p(#[trigger] s[i]),
        j == 0 || !p(s[j - 1]),
    ensures
        take_trailing(s, p) == s.subrange(j, s.len() as int),
    decreases s.len(),
{
    if s.len() > j {
        assert(p(s[s.len() - 1]));
        let t = s.drop_last();
        assert forall|i: int| j <= i < t.len() implies p(#[trigger] t[i]) by {
            assert(t[i] == s[i]);
        }
        lemma_take_trailing(t, p, j);
        assert(t.subrange(j, t.len() as int).push(s.last()) =~= s.subrange(j, s.len() as int));
    } else {
        assert(s.subrange(j, s.len() as int) =~= Seq::<char>::empty());
    }
}

pub proof fn lemma_before_first(s: Seq<char>, c: char, k: int)
    requires
        0 <= k <= s.len(),
        forall|i: int| 0 <= i < k ==> #[trigger] s[i] != c,
        k == s.len() || s[k] == c,
    ensures
        before_first(s, c) == s.take(k),
    decreases s.len(),
{
    if s.len() > 0 && s[0] != c {
        let t = s.skip(1);
        assert forall|i: int| 0 <= i < k - 1 implies #[trigger] t[i] != c by {
            assert(t[i] == s[i + 1]);
        }
        lemma_before_first(t, c, k - 1);
        assert(seq![s[0]] + t.take(k - 1) =~= s.take(k));
    } else {
        assert(s.take(k) =~= Seq::<char>::empty());
    }
}

/// Whether `char::is_whitespace` holds of `c`.
pub fn is_space_char(c: char) -> (r: bool)
    ensures
        r == is_space(c),
{
    let v = c as u32;
    (9 <= v && v <= 13) || v == 32 || v == 0x85 || v == 0xa0 || v == 0x1680 || (0x2000 <= v && v
        <= 0x200a) || v == 0x2028 || v == 0x2029 || v == 0x202f || v == 0x205f || v == 0x3000
}

/// The bounds `(a, b)` of the last whitespace-separated token of `s`.
pub fn last_token_bounds(s: &Vec<char>) -> (r: Option<(usize, usize)>)
    ensures
        match r {
            None => last_token(s@) is None,
            Some((a, b)) => a < b <= s@.len() && last_token(s@) == Some(s@.subrange(a as int, b as int)),
        },
{
    let mut b = s.len();
    while b > 0 && is_space_char(s[b - 1])
        invariant
            b <= s@.len(),
            forall|i: int| b <= i < s@.len() ==> space()(#[trigger] s@[i]),
        decreases b,
    {
        b = b - 1;
    }
    proof {
        lemma_drop_trailing(s@, space(), b as int);
    }
    if b == 0 {
        return None;
    }
    let mut a = b;
    while a > 0 && !is_space_char(s[a - 1])
        invariant
            a <= b <= s@.len(),
            forall|i: int| a <= i < b ==> non_space()(#[trigger] s@[i]),
        decreases a,
    {
        a = a - 1;
    }
    proof {
        let t = s@.take(b as int);
        assert forall|i: int| a <= i < t.len() implies non_space()(#[trigger] t[i]) by {
            assert(t[i] == s@[i]);
        }
        lemma_take_trailing(t, non_space(), a as int);
        assert(t.subrange(a as int, t.len() as int) =~= s@.subrange(a as int, b as int));
    }
    Some((a, b))
}

/// The number at the end of a template name: its last whitespace-separated token
/// read as a `u32`, as in `Barrel 12`.
pub fn name_number_of(name: &str) -> (r: Option<u32>)
    ensures
        r == name_number(name@),
{
    let s = chars_of(name);
    match last_token_bounds(&s) {
        None => None,
        Some((a, b)) => parse_u32_range(&s, a, b),
    }
}

/// The level of a template name: its number, or 0 where it has none.
pub fn name_level_of(name: &str) -> (r: u32)
    ensures
        r == name_level(name@),
{
    match name_number_of(name) {
        Some(n) => n,
        None => 0,
    }
}

/// The number in a file or template name: the last run of ASCII digits before the
/// first `.`, read as a `u32`; `None` where there is no such run or it overflows.
pub fn extract_barrel_number(name: &str) -> (r: Option<u32>)
    ensures
        r == barrel_number(name@),
{
    let s = chars_of(name);
    let mut k: usize = 0;
    while k < s.len() && s[k] != '.'
        invariant
            k <= s@.len(),
            forall|i: int| 0 <= i < k ==> #[trigger] s@[i] != '.',
        decreases s@.len() - k,
    {
        k = k + 1;
    }
    proof {
        lemma_before_first(s@, '.', k as int);
    }
    let ghost clean = s@.take(k as int);
    let mut b = k;
    while b > 0 && !('0' <= s[b - 1] && s[b - 1] <= '9')
        invariant
            b <= k <= s@.len(),
            clean == s@.take(k as int),
            forall|i: int| b <= i < k ==> non_digit()(#[trigger] s@[i]),
        decreases b,
    {
        b = b - 1;
    }
    let mut a = b;
    while a > 0 && '0' <= s[a - 1] && s[a - 1] <= '9'
        invariant
            a <= b <= k <= s@.len(),
            forall|i: int| a <= i < b ==> digit()(#[trigger] s@[i]),
        decreases a,
    {
        a = a - 1;
    }
    proof {
        assert forall|i: int| b <= i < clean.len() implies non_digit()(#[trigger] clean[i]) by {
            assert(clean[i] == s@[i]);
        }
        lemma_drop_trailing(clean, non_digit(), b as int);
        let t = clean.take(b as int);
        assert forall|i: int| a <= i < t.len() implies digit()(#[trigger] t[i]) by {
            assert(t[i] == s@[i]);
        }
        lemma_take_trailing(t, digit(), a as int);
        assert(t.subrange(a as int, t.len() as int) =~= s@.subrange(a as int, b as int));
    }
    if a == b {
        None
    } else {
        parse_u32_range(&s, a, b)
    }
}

/// `s` without the run of characters at its start for which `p` holds.
pub open spec fn drop_leading(s: Seq<char>, p: spec_fn(char) -> bool) -> Seq<char>
    decreases s.len(),
{
    if s.len() > 0 && p(s[0]) {
        drop_leading(s.skip(1), p)
    } else {
        s
    }
}

/// The run of characters at the start of `s` for which `p` holds.
pub open spec fn take_leading(s: Seq<char>, p: spec_fn(char) -> bool) -> Seq<char>
    decreases s.len(),
{
    if s.len() > 0 && p(s[0]) {
        seq![s[0]] + take_leading(s.skip(1), p)
    } else {
        Seq::empty()
    }
}

/// `s` without leading and trailing whitespace, as `str::trim` gives it.
pub open spec fn trim(s: Seq<char>) -> Seq<char> {
    drop_leading(drop_trailing(s, space()), space())
}

/// A line without the `\r` of a `\r\n` ending.
pub open spec fn strip_cr(line: Seq<char>) -> Seq<char> {
    if line.len() > 0 && line.last() == '\r' {
        line.drop_last()
    } else {
        line
    }
}

/// The lines of `s`, as `str::lines` gives them: split at `\n`, each without the `\r`
/// before it, and no empty line after a final `\n`.
pub open spec fn split_lines(s: Seq<char>) -> Seq<Seq<char>>
    decreases s.len(),
{
    if s.len() == 0 {
        Seq::empty()
    } else {
        let head = before_first(s, '\n');
        if head.len() < s.len() {
            seq![strip_cr(head)] + split_lines(s.skip(head.len() + 1 as int))
        } else {
            seq![head]
        }
    }
}

/// The whitespace-separated tokens of `s`, as `str::split_whitespace` gives them.
pub open spec fn tokens(s: Seq<char>) -> Seq<Seq<char>>
    decreases s.len(),
{
    let t = drop_leading(s, space());
    let w = take_leading(t, non_space());
    if w.len() == 0 || t.len() > s.len() || w.len() > t.len() {
        Seq::empty()
    } else {
        seq![w] + tokens(t.skip(w.len() as int))
    }
}

/// Whether `s` starts with `prefix`.
pub open spec fn starts_with(s: Seq<char>, prefix: Seq<char>) -> bool {
    prefix.len() <= s.len() && s.take(prefix.len() as int) == prefix
}

/// Whether `pat` occurs in `s`.
pub open spec fn contains(s: Seq<char>, pat: Seq<char>) -> bool {
    exists|i: int| 0 <= i <= s.len() - pat.len() && #[trigger] s.subrange(i, i + pat.len()) == pat
}

/// What parsing `s` as an `i32` gives: an optional sign, then one or more decimal digits
/// whose value fits.
pub open spec fn parse_i32(s: Seq<char>) -> Option<i32> {
    if s.len() > 0 && s[0] == '-' {
        let d = s.skip(1);
        if d.len() > 0 && all_digits(d) && digits_value(d) <= 0x8000_0000 {
            Some((-digits_value(d)) as i32)
        } else {
            None
        }
    } else {
        let d = if s.len() > 0 && s[0] == '+' { s.skip(1) } else { s };
        if d.len() > 0 && all_digits(d) && digits_value(d) <= i32::MAX {
            Some(digits_value(d) as i32)
        } else {
            None
        }
    }
}

pub open spec fn is_hex_digit(c: char) -> bool {
    ('0' <= c && c <= '9') || ('a' <= c && c <= 'f') || ('A' <= c && c <= 'F')
}

pub open spec fn hex_digit_value(c: char) -> nat {
    if '0' <= c && c <= '9' {
        (c as u32 - '0' as u32) as nat
    } else if 'a' <= c && c <= 'f' {
        (c as u32 - 'a' as u32 + 10) as nat
    } else {
        (c as u32 - 'A' as u32 + 10) as nat
    }
}

pub open spec fn all_hex(s: Seq<char>) -> bool {
    forall|i: int| 0 <= i < s.len() ==> is_hex_digit(#[trigger] s[i])
}

/// The number written by the hexadecimal digits `s`, most significant first.
pub open spec fn hex_value(s: Seq<char>) -> nat
    decreases s.len(),
{
    if s.len() == 0 {
        0
    } else {
        hex_value(s.drop_last()) * 16 + hex_digit_value(s.last())
    }
}

/// What `u32::from_str_radix(s, 16)` gives: an optional `+`, then one or more
/// hexadecimal digits whose value fits in 32 bits.
pub open spec fn parse_hex_u32(s: Seq<char>) -> Option<u32> {
    let d = if s.len() > 0 && s[0] == '+' { s.skip(1) } else { s };
    if d.len() > 0 && all_hex(d) && hex_value(d) <= u32::MAX {
        Some(hex_value(d) as u32)
    } else {
        None
    }
}

proof fn lemma_drop_leading(s: Seq<char>, p: spec_fn(char) -> bool, k: int)
    requires
        0 <= k <= s.len(),
        forall|i: int| 0 <= i < k ==> p(#[trigger] s[i]),
        k == s.len() || !p(s[k]),
    ensures
        drop_leading(s, p) == s.skip(k),
    decreases s.len(),
{
    if k > 0 {
        assert(p(s[0]));
        let t = s.skip(1);
        assert forall|i: int| 0 <= i < k - 1 implies p(#[trigger] t[i]) by {
            assert(t[i] == s[i + 1]);
        }
        lemma_drop_leading(t, p, k - 1);
        assert(t.skip(k - 1) =~= s.skip(k));
    } else {
        assert(s.skip(0) =~= s);
    }
}

proof fn lemma_take_leading(s: Seq<char>, p: spec_fn(char) -> bool, k: int)
    requires
        0 <= k <= s.len(),
        forall|i: int| 0 <= i < k ==> p(#[trigger] s[i]),
        k == s.len() || !p(s[k]),
    ensures
        take_leading(s, p) == s.take(k),
    decreases s.len(),
{
    if k > 0 {
        assert(p(s[0]));
        let t = s.skip(1);
        assert forall|i: int| 0 <= i < k - 1 implies p(#[trigger] t[i]) by {
            assert(t[i] == s[i + 1]);
        }
        lemma_take_leading(t, p, k - 1);
        assert(seq![s[0]] + t.take(k - 1) =~= s.take(k));
    } else {
        assert(s.take(0) =~= Seq::<char>::empty());
    }
}

/// The bounds of `s[a..b]` without its leading and trailing whitespace.
pub fn trim_bounds(s: &Vec<char>, a: usize, b: usize) -> (r: (usize, usize))
    requires
        a <= b <= s@.len(),
    ensures
        a <= r.0 <= r.1 <= b,
        trim(s@.subrange(a as int, b as int)) == s@.subrange(r.0 as int, r.1 as int),
{
    let ghost w = s@.subrange(a as int, b as int);
    let mut e = b;
    while e > a && is_space_char(s[e - 1])
        invariant
            a <= e <= b <= s@.len(),
            forall|i: int| e <= i < b ==> space()(#[trigger] s@[i]),
        decreases e,
    {
        e = e - 1;
    }
    proof {
        assert forall|i: int| e - a <= i < w.len() implies space()(#[trigger] w[i]) by {
            assert(w[i] == s@[a + i]);
        }
        lemma_drop_trailing(w, space(), e - a);
    }
    let mut f = a;
    while f < e && is_space_char(s[f])
        invariant
            a <= f <= e <= b <= s@.len(),
            forall|i: int| a <= i < f ==> space()(#[trigger] s@[i]),
        decreases e - f,
    {
        f = f + 1;
    }
    proof {
        let t = w.take(e - a);
        assert forall|i: int| 0 <= i < f - a implies space()(#[trigger] t[i]) by {
            assert(t[i] == s@[a + i]);
        }
        lemma_drop_leading(t, space(), f - a);
        assert(t.skip(f - a) =~= s@.subrange(f as int, e as int));
    }
    (f, e)
}

/// The end of the line of `s` that starts at `a`, and where the next line starts:
/// `split_lines(s[a..])` is the line `s[a..end]` followed by `split_lines(s[next..])`.
pub fn next_line(s: &Vec<char>, a: usize) -> (r: (usize, usize))
    requires
        a < s@.len(),
    ensures
        a <= r.0 <= r.1,
        a < r.1 <= s@.len(),
        split_lines(s@.skip(a as int)) == seq![s@.subrange(a as int, r.0 as int)] + split_lines(
            s@.skip(r.1 as int),
        ),
{
    let n = s.len();
    let mut k = a;
    while k < n && s[k] != '\n'
        invariant
            a <= k <= n == s@.len(),
            forall|i: int| a <= i < k ==> #[trigger] s@[i] != '\n',
        decreases n - k,
    {
        k = k + 1;
    }
    let ghost t = s@.skip(a as int);
    proof {
        assert forall|i: int| 0 <= i < k - a implies #[trigger] t[i] != '\n' by {
            assert(t[i] == s@[a + i]);
        }
        lemma_before_first(t, '\n', k - a);
        assert(t.take(k - a) =~= s@.subrange(a as int, k as int));
    }
    if k < n {
        let e = if k > a && s[k - 1] == '\r' { k - 1 } else { k };
        proof {
            assert(t.skip(k - a + 1) =~= s@.skip(k + 1));
            assert(strip_cr(s@.subrange(a as int, k as int)) =~= s@.subrange(a as int, e as int));
        }
        (e, k + 1)
    } else {
        proof {
            assert(s@.skip(n as int) =~= Seq::<char>::empty());
            assert(s@.subrange(a as int, n as int) =~= t);
        }
        (n, n)
    }
}

/// Whether `s[a..b]` starts with `prefix`.
pub fn range_starts_with(s: &Vec<char>, a: usize, b: usize, prefix: &Vec<char>) -> (r: bool)
    requires
        a <= b <= s@.len(),
    ensures
        r == starts_with(s@.subrange(a as int, b as int), prefix@),
{
    let m = prefix.len();
    if m > b - a {
        return false;
    }
    let mut i: usize = 0;
    while i < m
        invariant
            m == prefix@.len(),
            m <= b - a,
            a <= b <= s@.len(),
            i <= m,
            forall|k: int| 0 <= k < i ==> s@[a + k] == prefix@[k],
        decreases m - i,
    {
        if s[a + i] != prefix[i] {
            assert(s@.subrange(a as int, b as int).take(m as int)[i as int] != prefix@[i as int]);
            return false;
        }
        i = i + 1;
    }
    assert(s@.subrange(a as int, b as int).take(m as int) =~= prefix@);
    true
}

/// Whether `pat` occurs in `s[a..b]`.
pub fn range_contains(s: &Vec<char>, a: usize, b: usize, pat: &Vec<char>) -> (r: bool)
    requires
        a <= b <= s@.len(),
    ensures
        r == contains(s@.subrange(a as int, b as int), pat@),
{
    let ghost w = s@.subrange(a as int, b as int);
    let m = pat.len();
    if m > b - a {
        assert forall|i: int| 0 <= i <= w.len() - m implies #[trigger] w.subrange(i, i + m) != pat@ by {}
        return false;
    }
    if m == 0 {
        assert(w.subrange(0int, 0int + pat@.len()) =~= pat@);
        return true;
    }
    let mut i: usize = a;
    while i <= b - m
        invariant
            m == pat@.len(),
            a <= i <= b - m + 1,
            1 <= m <= b - a,
            b <= s@.len(),
            w == s@.subrange(a as int, b as int),
            forall|q: int| 0 <= q < i - a ==> #[trigger] w.subrange(q, q + m) != pat@,
        decreases b - m + 1 - i,
    {
        if range_starts_with(s, i, b, pat) {
            assert(w.subrange(i - a, i - a + m) =~= s@.subrange(i as int, b as int).take(m as int));
            return true;
        }
        assert(w.subrange(i - a, i - a + m) =~= s@.subrange(i as int, b as int).take(m as int));
        i = i + 1;
    }
    false
}

/// The bounds of the `n`-th whitespace-separated token of `s[a..b]`, counting from zero.
pub fn nth_token(s: &Vec<char>, a: usize, b: usize, n: usize) -> (r: Option<(usize, usize)>)
    requires
        a <= b <= s@.len(),
    ensures
        match r {
            Some((x, y)) => a <= x < y <= b && n < tokens(s@.subrange(a as int, b as int)).len()
                && tokens(s@.subrange(a as int, b as int))[n as int] == s@.subrange(x as int, y as int),
            None => n >= tokens(s@.subrange(a as int, b as int)).len(),
        },
{
    let mut p = a;
    let mut k: usize = 0;
    let ghost all = tokens(s@.subrange(a as int, b as int));
    loop
        invariant
            a <= p <= b <= s@.len(),
            k <= n,
            all == tokens(s@.subrange(a as int, b as int)),
            all.len() == k + tokens(s@.subrange(p as int, b as int)).len(),
            all.skip(k as int) == tokens(s@.subrange(p as int, b as int)),
        decreases b - p,
    {
        let ghost w = s@.subrange(p as int, b as int);
        let mut x = p;
        while x < b && is_space_char(s[x])
            invariant
                p <= x <= b <= s@.len(),
                forall|i: int| p <= i < x ==> space()(#[trigger] s@[i]),
            decreases b - x,
        {
            x = x + 1;
        }
        let mut y = x;
        while y < b && !is_space_char(s[y])
            invariant
                x <= y <= b <= s@.len(),
                forall|i: int| x <= i < y ==> non_space()(#[trigger] s@[i]),
            decreases b - y,
        {
            y = y + 1;
        }
        proof {
            assert forall|i: int| 0 <= i < x - p implies space()(#[trigger] w[i]) by {
                assert(w[i] == s@[p + i]);
            }
            lemma_drop_leading(w, space(), x - p);
            let t = w.skip(x - p);
            assert(t =~= s@.subrange(x as int, b as int));
            assert forall|i: int| 0 <= i < y - x implies non_space()(#[trigger] t[i]) by {
                assert(t[i] == s@[x + i]);
            }
            lemma_take_leading(t, non_space(), y - x);
            assert(t.take(y - x) =~= s@.subrange(x as int, y as int));
            assert(t.skip(y - x) =~= s@.subrange(y as int, b as int));
        }
        if x == y {
            return None;
        }
        proof {
            let ts = tokens(s@.subrange(y as int, b as int));
            assert(tokens(w) == seq![s@.subrange(x as int, y as int)] + ts);
            assert(all.skip(k as int)[0] == s@.subrange(x as int, y as int));
            assert(all[k as int] == all.skip(k as int)[0]);
            assert(all.skip(k + 1) =~= all.skip(k as int).skip(1));
            assert(all.skip(k as int).skip(1) =~= ts);
        }
        if k == n {
            return Some((x, y));
        }
        k = k + 1;
        p = y;
    }
}

/// Reads the characters `s[from..to]` as an `i32` the way `str::parse` does.
pub fn parse_i32_range(s: &Vec<char>, from: usize, to: usize) -> (r: Option<i32>)
    requires
        from <= to <= s@.len(),
    ensures
        r == parse_i32(s@.subrange(from as int, to as int)),
{
    let ghost w = s@.subrange(from as int, to as int);
    if from < to && s[from] == '-' {
        let ghost d = s@.subrange(from + 1, to as int);
        assert(d =~= w.skip(1));
        match digits_u64(s, from + 1, to, 0x8000_0000) {
            Some(v) => Some((0 - (v as i64)) as i32),
            None => None,
        }
    } else {
        let start = if from < to && s[from] == '+' { from + 1 } else { from };
        assert(s@.subrange(start as int, to as int) =~= if w.len() > 0 && w[0] == '+' { w.skip(1) } else { w });
        match digits_u64(s, start, to, 0x7fff_ffff) {
            Some(v) => Some(v as i32),
            None => None,
        }
    }
}

/// The value of the decimal digits `s[from..to]` where they are one or more digits and
/// the value is at most `max`.
fn digits_u64(s: &Vec<char>, from: usize, to: usize, max: u64) -> (r: Option<u64>)
    requires
        from <= to <= s@.len(),
        max <= u32::MAX,
    ensures
        ({
            let d = s@.subrange(from as int, to as int);
            r == if d.len() > 0 && all_digits(d) && digits_value(d) <= max {
                Some(digits_value(d) as u64)
            } else {
                None
            }
        }),
{
    let ghost d = s@.subrange(from as int, to as int);
    if from == to {
        return None;
    }
    let mut acc: u64 = 0;
    let mut i = from;
    while i < to
        invariant
            from <= i <= to <= s@.len(),
            d == s@.subrange(from as int, to as int),
            d.len() > 0,
            max <= u32::MAX,
            all_digits(d.take(i - from)),
            acc == digits_value(d.take(i - from)),
            acc <= max,
        decreases to - i,
    {
        let c = s[i];
        if !('0' <= c && c <= '9') {
            assert(d[i - from] == c);
            assert(!all_digits(d));
            return None;
        }
        let ghost prev = d.take(i - from);
        acc = acc * 10 + (c as u32 - '0' as u32) as u64;
        i = i + 1;
        let ghost cur = d.take(i - from);
        assert(cur.drop_last() =~= prev);
        assert(all_digits(cur)) by {
            assert forall|k: int| 0 <= k < cur.len() implies is_digit(#[trigger] cur[k]) by {
                if k < prev.len() {
                    assert(cur[k] == prev[k]);
                }
            }
        }
        if acc > max {
            proof {
                if all_digits(d) {
                    lemma_digits_value_grows(d, i - from);
                }
            }
            return None;
        }
    }
    assert(d.take(i - from) =~= d);
    Some(acc)
}

proof fn lemma_hex_value_grows(s: Seq<char>, k: int)
    requires
        0 <= k <= s.len(),
        all_hex(s),
    ensures
        hex_value(s.take(k)) <= hex_value(s),
    decreases s.len(),
{
    if k < s.len() {
        let t = s.drop_last();
        assert(all_hex(t)) by {
            assert forall|i: int| 0 <= i < t.len() implies is_hex_digit(#[trigger] t[i]) by {
                assert(t[i] == s[i]);
            }
        }
        assert(t.take(k) =~= s.take(k));
        lemma_hex_value_grows(t, k);
    } else {
        assert(s.take(k) =~= s);
    }
}

/// Reads `s[from..to]` as a hexadecimal `u32` the way `u32::from_str_radix` does.
pub fn parse_hex_range(s: &Vec<char>, from: usize, to: usize) -> (r: Option<u32>)
    requires
        from <= to <= s@.len(),
    ensures
        r == parse_hex_u32(s@.subrange(from as int, to as int)),
{
    let ghost w = s@.subrange(from as int, to as int);
    let start = if from < to && s[from] == '+' { from + 1 } else { from };
    let ghost d = s@.subrange(start as int, to as int);
    assert(d =~= if w.len() > 0 && w[0] == '+' { w.skip(1) } else { w });
    if start == to {
        return None;
    }
    let mut acc: u64 = 0;
    let mut i = start;
    while i < to
        invariant
            from <= start <= i <= to <= s@.len(),
            d == s@.subrange(start as int, to as int),
            w == s@.subrange(from as int, to as int),
            d == (if w.len() > 0 && w[0] == '+' { w.skip(1) } else { w }),
            d.len() > 0,
            all_hex(d.take(i - start)),
            acc == hex_value(d.take(i - start)),
            acc <= u32::MAX,
        decreases to - i,
    {
        let c = s[i];
        let v: u64 = if '0' <= c && c <= '9' {
            (c as u32 - '0' as u32) as u64
        } else if 'a' <= c && c <= 'f' {
            (c as u32 - 'a' as u32 + 10) as u64
        } else if 'A' <= c && c <= 'F' {
            (c as u32 - 'A' as u32 + 10) as u64
        } else {
            assert(d[i - start] == c);
            assert(!is_hex_digit(c));
            assert(!all_hex(d));
            return None;
        };
        let ghost prev = d.take(i - start);
        acc = acc * 16 + v;
        i = i + 1;
        let ghost cur = d.take(i - start);
        assert(cur.drop_last() =~= prev);
        assert(all_hex(cur)) by {
            assert forall|k: int| 0 <= k < cur.len() implies is_hex_digit(#[trigger] cur[k]) by {
                if k < prev.len() {
                    assert(cur[k] == prev[k]);
                }
            }
        }
        if acc > u32::MAX as u64 {
            proof {
                if all_hex(d) {
                    lemma_hex_value_grows(d, i - start);
                    assert(hex_value(d) > u32::MAX);
                }
            }
            return None;
        }
    }
    assert(d.take(i - start) =~= d);
    Some(acc as u32)
}

/// The characters of `s`, one element each.
pub fn chars_of(s: &str) -> (r: Vec<char>)
    ensures
        r@ == s@,
{
    let n = s.unicode_len();
    let mut r: Vec<char> = Vec::new();
    let mut i: usize = 0;
    while i < n
        invariant
            n == s@.len(),
            i <= n,
            r@ == s@.take(i as int),
        decreases n - i,
    {
        let c = s.get_char(i);
        r.push(c);
        i = i + 1;
        assert(r@ =~= s@.take(i as int));
    }
    assert(r@ =~= s@);
    r
}

/// Reads the characters `s[from..to]` as a `u32` the way `str::parse` does.
pub fn parse_u32_range(s: &Vec<char>, from: usize, to: usize) -> (r: Option<u32>)
    requires
        from <= to <= s@.len(),
    ensures
        r == parse_u32(s@.subrange(from as int, to as int)),
{
    let ghost w = s@.subrange(from as int, to as int);
    let mut start = from;
    if start < to && s[start] == '+' {
        start = start + 1;
    }
    let ghost d = s@.subrange(start as int, to as int);
    assert(d =~= if w.len() > 0 && w[0] == '+' { w.skip(1) } else { w });
    if start == to {
        return None;
    }
    let mut acc: u64 = 0;
    let mut i = start;
    while i < to
        invariant
            from <= start <= i <= to <= s@.len(),
            d == s@.subrange(start as int, to as int),
            w == s@.subrange(from as int, to as int),
            d == (if w.len() > 0 && w[0] == '+' { w.skip(1) } else { w }),
            d.len() > 0,
            all_digits(d.take(i - start)),
            acc == digits_value(d.take(i - start)),
            acc <= u32::MAX,
        decreases to - i,
    {
        let c = s[i];
        if !('0' <= c && c <= '9') {
            assert(d[i - start] == c);
            assert(!all_digits(d));
            return None;
        }
        let ghost prev = d.take(i - start);
        let v = (c as u32 - '0' as u32) as u64;
        acc = acc * 10 + v;
        i = i + 1;
        let ghost cur = d.take(i - start);
        assert(cur.drop_last() =~= prev);
        assert(cur.last() == c);
        assert(all_digits(cur)) by {
            assert forall|k: int| 0 <= k < cur.len() implies is_digit(#[trigger] cur[k]) by {
                if k < prev.len() {
                    assert(cur[k] == prev[k]);
                }
            }
        }
        if acc > u32::MAX as u64 {
            proof {
                if all_digits(d) {
                    lemma_digits_value_grows(d, i - start);
                    assert(digits_value(d) > u32::MAX);
                }
            }
            return None;
        }
    }
    assert(d.take(i - start) =~= d);
    Some(acc as u32)
}

} // verus!
