//! Reading the output of the window tools: window geometry and id (`xwininfo`) and the
//! pointer position (`xdotool getmouselocation --shell`); and the checks made on them.
use vstd::prelude::*;
use crate::text::{
    before_first, chars_of, contains, next_line, nth_token, parse_hex_range, parse_hex_u32,
    parse_i32, parse_i32_range, parse_u32, parse_u32_range, range_contains, range_starts_with,
    split_lines, starts_with, tokens, trim, trim_bounds, lemma_before_first,
};

verus! {

/// The value of the last line of `lines` that starts with `key`: the rest of that line read
/// as an `i32`, or 0 where it is no number; `init` where no line starts with `key`.
pub open spec fn coord_after(lines: Seq<Seq<char>>, key: Seq<char>, init: i32) -> i32
    decreases lines.len(),
{
    if lines.len() == 0 {
        init
    } else {
        let l = lines[0];
        let v = if starts_with(l, key) {
            match parse_i32(l.skip(key.len() as int)) {
                Some(v) => v,
                None => 0,
            }
        } else {
            init
        };
        coord_after(lines.skip(1), key, v)
    }
}

/// The pointer position that `xdotool getmouselocation --shell` printed as `out`.
pub open spec fn mouse_position_of(out: Seq<char>) -> (i32, i32) {
    (coord_after(split_lines(out), "X="@, 0), coord_after(split_lines(out), "Y="@, 0))
}

/// The first of `lines` that, trimmed, starts with `key`.
pub open spec fn first_line_starting(lines: Seq<Seq<char>>, key: Seq<char>) -> Option<Seq<char>>
    decreases lines.len(),
{
    if lines.len() == 0 {
        None
    } else if starts_with(trim(lines[0]), key) {
        Some(lines[0])
    } else {
        first_line_starting(lines.skip(1), key)
    }
}

/// The first of `lines` that contains `pat`.
pub open spec fn first_line_containing(lines: Seq<Seq<char>>, pat: Seq<char>) -> Option<Seq<char>>
    decreases lines.len(),
{
    if lines.len() == 0 {
        None
    } else if contains(lines[0], pat) {
        Some(lines[0])
    } else {
        first_line_containing(lines.skip(1), pat)
    }
}

/// The number a `Key: value` line gives: the text between its first and second `:`,
/// trimmed, up to the first space, read as an `i32`.
pub open spec fn field_value(l: Seq<char>) -> Option<i32> {
    let h = before_first(l, ':');
    if h.len() == l.len() {
        None
    } else {
        let seg = before_first(l.skip(h.len() + 1 as int), ':');
        parse_i32(before_first(trim(seg), ' '))
    }
}

/// The value of `key` in the output `out` of `xwininfo`, read from the first line that
/// starts with it.
pub open spec fn geometry_value_of(out: Seq<char>, key: Seq<char>) -> Option<i32> {
    match first_line_starting(split_lines(out), key) {
        Some(l) => field_value(l),
        None => None,
    }
}

/// The window id in the output `out` of `xwininfo`: the fourth token of the first line
/// holding `Window id:`, in hexadecimal after `0x`, else in decimal.
pub open spec fn window_id_of(out: Seq<char>) -> Option<u32> {
    match first_line_containing(split_lines(out), "Window id:"@) {
        Some(l) => {
            let ts = tokens(l);
            if ts.len() > 3 {
                let t = ts[3];
                if starts_with(t, "0x"@) {
                    parse_hex_u32(t.skip(2))
                } else {
                    parse_u32(t)
                }
            } else {
                None
            }
        },
        None => None,
    }
}

proof fn lemma_lines_step(s: Seq<char>, a: int, e: int, next: int)
    requires
        0 <= a <= e <= s.len(),
        a < next <= s.len(),
        split_lines(s.skip(a)) == seq![s.subrange(a, e)] + split_lines(s.skip(next)),
    ensures
        split_lines(s.skip(a)).len() > 0,
        split_lines(s.skip(a))[0] == s.subrange(a, e),
        split_lines(s.skip(a)).skip(1) == split_lines(s.skip(next)),
{
    assert(split_lines(s.skip(a)).skip(1) =~= split_lines(s.skip(next)));
}

proof fn lemma_lines_end(s: Seq<char>)
    ensures
        split_lines(s.skip(s.len() as int)) == Seq::<Seq<char>>::empty(),
{
    assert(s.skip(s.len() as int) =~= Seq::<char>::empty());
}

/// The first index of `c` in `s[a..b]`, or `b`.
fn find_char(s: &Vec<char>, a: usize, b: usize, c: char) -> (k: usize)
    requires
        a <= b <= s@.len(),
    ensures
        a <= k <= b,
        before_first(s@.subrange(a as int, b as int), c) == s@.subrange(a as int, k as int),
        k < b ==> s@[k as int] == c,
{
    let mut k = a;
    while k < b && s[k] != c
        invariant
            a <= k <= b <= s@.len(),
            forall|i: int| a <= i < k ==> #[trigger] s@[i] != c,
        decreases b - k,
    {
        k = k + 1;
    }
    proof {
        let w = s@.subrange(a as int, b as int);
        assert forall|i: int| 0 <= i < k - a implies #[trigger] w[i] != c by {
            assert(w[i] == s@[a + i]);
        }
        lemma_before_first(w, c, k - a);
        assert(w.take(k - a) =~= s@.subrange(a as int, k as int));
    }
    k
}

/// The pointer position in the output of `xdotool getmouselocation --shell`: the last
/// `X=` and `Y=` lines, each read as an `i32`, or 0 where it is missing or no number.
pub fn parse_mouse_location(output: &str) -> (r: (i32, i32))
    ensures
        r == mouse_position_of(output@),
{
    let s = chars_of(output);
    let kx = chars_of("X=");
    let ky = chars_of("Y=");
    let n = s.len();
    let mut x: i32 = 0;
    let mut y: i32 = 0;
    let mut a: usize = 0;
    assert(s@.skip(0) =~= s@);
    while a < n
        invariant
            n == s@.len(),
            a <= n,
            kx@ == "X="@,
            ky@ == "Y="@,
            s@ == output@,
            coord_after(split_lines(s@), kx@, 0) == coord_after(split_lines(s@.skip(a as int)), kx@, x),
            coord_after(split_lines(s@), ky@, 0) == coord_after(split_lines(s@.skip(a as int)), ky@, y),
        decreases n - a,
    {
        let (e, next) = next_line(&s, a);
        proof {
            lemma_lines_step(s@, a as int, e as int, next as int);
        }
        if range_starts_with(&s, a, e, &kx) {
            x = match parse_i32_range(&s, a + kx.len(), e) {
                Some(v) => v,
                None => 0,
            };
            assert(s@.subrange(a as int, e as int).skip(kx@.len() as int) =~= s@.subrange(a + kx@.len(), e as int));
        }
        if range_starts_with(&s, a, e, &ky) {
            y = match parse_i32_range(&s, a + ky.len(), e) {
                Some(v) => v,
                None => 0,
            };
            assert(s@.subrange(a as int, e as int).skip(ky@.len() as int) =~= s@.subrange(a + ky@.len(), e as int));
        }
        a = next;
    }
    proof {
        lemma_lines_end(s@);
    }
    (x, y)
}

/// The value of `key` in `xwininfo` output, as in `Width: 800`: read from the first line
/// that starts with `key` once trimmed, between its first and second `:`, trimmed, up to
/// the first space.
pub fn geometry_value(output: &str, key: &str) -> (r: Option<i32>)
    ensures
        r == geometry_value_of(output@, key@),
{
    let s = chars_of(output);
    let k = chars_of(key);
    let n = s.len();
    let mut a: usize = 0;
    assert(s@.skip(0) =~= s@);
    while a < n
        invariant
            n == s@.len(),
            a <= n,
            s@ == output@,
            k@ == key@,
            geometry_value_of(s@, k@) == match first_line_starting(split_lines(s@.skip(a as int)), k@) {
                Some(l) => field_value(l),
                None => None,
            },
        decreases n - a,
    {
        let (e, next) = next_line(&s, a);
        proof {
            lemma_lines_step(s@, a as int, e as int, next as int);
        }
        let (ta, tb) = trim_bounds(&s, a, e);
        if range_starts_with(&s, ta, tb, &k) {
            let c1 = find_char(&s, a, e, ':');
            if c1 == e {
                return None;
            }
            let c2 = find_char(&s, c1 + 1, e, ':');
            let (va, vb) = trim_bounds(&s, c1 + 1, c2);
            let sp = find_char(&s, va, vb, ' ');
            proof {
                let l = s@.subrange(a as int, e as int);
                assert(l.skip(c1 - a + 1) =~= s@.subrange(c1 + 1, e as int));
            }
            return parse_i32_range(&s, va, sp);
        }
        a = next;
    }
    proof {
        lemma_lines_end(s@);
    }
    None
}

/// The window id in `xwininfo` output: the fourth token of the first line holding
/// `Window id:`, read in hexadecimal after `0x`, else in decimal.
pub fn parse_window_id(geometry_output: &str) -> (r: Option<u32>)
    ensures
        r == window_id_of(geometry_output@),
{
    let s = chars_of(geometry_output);
    let pat = chars_of("Window id:");
    let hex = chars_of("0x");
    let n = s.len();
    let mut a: usize = 0;
    assert(s@.skip(0) =~= s@);
    while a < n
        invariant
            n == s@.len(),
            a <= n,
            s@ == geometry_output@,
            pat@ == "Window id:"@,
            hex@ == "0x"@,
            window_id_of(s@) == match first_line_containing(split_lines(s@.skip(a as int)), pat@) {
                Some(l) => {
                    let ts = tokens(l);
                    if ts.len() > 3 {
                        let t = ts[3];
                        if starts_with(t, hex@) {
                            parse_hex_u32(t.skip(2))
                        } else {
                            parse_u32(t)
                        }
                    } else {
                        None
                    }
                },
                None => None,
            },
        decreases n - a,
    {
        let (e, next) = next_line(&s, a);
        proof {
            lemma_lines_step(s@, a as int, e as int, next as int);
        }
        if range_contains(&s, a, e, &pat) {
            match nth_token(&s, a, e, 3) {
                None => {
                    return None;
                },
                Some((x, y)) => {
                    if range_starts_with(&s, x, y, &hex) {
                        proof {
                            reveal_strlit("0x");
                            assert(s@.subrange(x as int, y as int).skip(2) =~= s@.subrange(x + 2, y as int));
                        }
                        return parse_hex_range(&s, x + 2, y);
                    } else {
                        return parse_u32_range(&s, x, y);
                    }
                },
            }
        }
        a = next;
    }
    proof {
        lemma_lines_end(s@);
    }
    None
}

/// Whether the pointer at `(cursor_x, cursor_y)` is over the window at `(x, y)` of
/// `width` by `height`, edges included.
pub fn cursor_in_window(cursor_x: i32, cursor_y: i32, x: i32, y: i32, width: i32, height: i32) -> (r: bool)
    ensures
        r == (x <= cursor_x <= x as int + width && y <= cursor_y <= y as int + height),
{
    let cx = cursor_x as i64;
    let cy = cursor_y as i64;
    cx >= x as i64 && cx <= x as i64 + width as i64 && cy >= y as i64 && cy <= y as i64 + height as i64
}

/// Pixels by which a window size may differ from the recommended one.
pub const SIZE_TOLERANCE: i32 = 5;

/// Whether the width and the height of a window differ from the recommended ones by more
/// than `SIZE_TOLERANCE`.
pub fn size_off(width: i32, height: i32, recommended_width: i32, recommended_height: i32) -> (r: (bool, bool))
    ensures
        r.0 == (width - recommended_width > SIZE_TOLERANCE || recommended_width - width > SIZE_TOLERANCE),
        r.1 == (height - recommended_height > SIZE_TOLERANCE || recommended_height - height > SIZE_TOLERANCE),
{
    let dw = width as i64 - recommended_width as i64;
    let dh = height as i64 - recommended_height as i64;
    (dw > 5 || -dw > 5, dh > 5 || -dh > 5)
}

} // verus!
