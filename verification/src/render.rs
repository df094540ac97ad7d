//! Software rendering into an ARGB8888 (BGRA byte order) shm buffer: colors,
//! panel geometry, and the pixel operations the frame is painted with.
use vstd::prelude::*;

use crate::text::{chars_of, push_char};

verus! {

/// One pixel, bytes in buffer order `[b, g, r, a]`.
pub type Bgra = [u8; 4];

/// The pixel for color `(r, g, b, a)`.
pub fn bgra(r: u8, g: u8, b: u8, a: u8) -> (p: Bgra)
    ensures
        p@ == seq![b, g, r, a],
{
    [b, g, r, a]
}

/// Spotlight panel corner radius (logical px), clamped to half the panel size.
pub const CORNER_RADIUS: u32 = 10;

/// Fixed gap between the prompt label and the typed input (8px grid).
pub const PROMPT_GAP: u32 = 8;

/// Vertical padding of the prompt label rail around the text line.
pub const PILL_VPAD: u32 = 2;

/// Width of the prompt label rail.
pub const LABEL_RAIL_W: u32 = 4;

pub const BG_NORMAL: Bgra = [0x22, 0x22, 0x22, 0xff];

pub const FG_NORMAL: Bgra = [0xbb, 0xbb, 0xbb, 0xff];

/// Input bar: a subtly lighter tone than the list, so bar and list read as
/// separate pieces of one panel.
pub const BG_PROMPT: Bgra = [0x2e, 0x2e, 0x2e, 0xff];

pub const FG_PROMPT: Bgra = [0xee, 0xee, 0xee, 0xff];

/// Prompt label accent: a deep slate blue rail on the input bar's left edge.
pub const LABEL_ACCENT: Bgra = [0x5c, 0x4a, 0x2e, 0xff];

pub const BG_SEL: Bgra = [0xa6, 0x7c, 0x0f, 0xff];

pub const FG_SEL: Bgra = [0xee, 0xee, 0xee, 0xff];

/// Menu color scheme, wmenu-style.
#[derive(Debug, Clone, Copy, PartialEq, Eq)]
pub struct Colors {
    /// Normal row background (`-N`).
    pub bg_normal: Bgra,
    /// Normal row foreground (`-n`).
    pub fg_normal: Bgra,
    /// Prompt/input row background (`-M`).
    pub bg_prompt: Bgra,
    /// Prompt label accent (left rail; input bar stays `bg_prompt`).
    pub label_accent: Bgra,
    /// Prompt/input row foreground (`-m`).
    pub fg_prompt: Bgra,
    /// Selected row background (`-S`).
    pub bg_sel: Bgra,
    /// Selected row foreground (`-s`).
    pub fg_sel: Bgra,
}

impl Default for Colors {
    fn default() -> (c: Self)
        ensures
            c.bg_normal == BG_NORMAL,
            c.fg_normal == FG_NORMAL,
            c.bg_prompt == BG_PROMPT,
            c.label_accent == LABEL_ACCENT,
            c.fg_prompt == FG_PROMPT,
            c.bg_sel == BG_SEL,
            c.fg_sel == FG_SEL,
    {
        Colors {
            bg_normal: BG_NORMAL,
            fg_normal: FG_NORMAL,
            bg_prompt: BG_PROMPT,
            label_accent: LABEL_ACCENT,
            fg_prompt: FG_PROMPT,
            bg_sel: BG_SEL,
            fg_sel: FG_SEL,
        }
    }
}

/// Value of a hexadecimal digit.
pub open spec fn hex_val(c: char) -> int {
    if '0' <= c <= '9' {
        c as int - '0' as int
    } else if 'a' <= c <= 'f' {
        c as int - 'a' as int + 10
    } else {
        c as int - 'A' as int + 10
    }
}

/// `c` is a hexadecimal digit (either case).
pub open spec fn is_hex(c: char) -> bool {
    ('0' <= c <= '9') || ('a' <= c <= 'f') || ('A' <= c <= 'F')
}

/// The number written by the hexadecimal digits `s`.
pub open spec fn hex_value(s: Seq<char>) -> nat
    decreases s.len(),
{
    if s.len() == 0 {
        0
    } else {
        (hex_value(s.drop_last()) * 16 + hex_val(s.last())) as nat
    }
}

/// The color text without its optional `#`.
pub open spec fn color_body(s: Seq<char>) -> Seq<char> {
    if s.len() > 0 && s[0] == '#' {
        s.drop_first()
    } else {
        s
    }
}

/// `parse_color` accepts `s`: `RRGGBB` or `RRGGBBAA` after an optional `#`,
/// that is 6 or 8 characters, every one of them a hex digit.
pub open spec fn color_ok(s: Seq<char>) -> bool {
    let d = color_body(s);
    &&& (d.len() == 6 || d.len() == 8)
    &&& forall|i: int| 0 <= i < d.len() ==> is_hex(#[trigger] d[i])
}

/// The pixel `parse_color` returns for an accepted `s`.
pub open spec fn color_px(s: Seq<char>) -> Bgra {
    let v = hex_value(color_body(s));
    if color_body(s).len() == 6 {
        [(v % 256) as u8, (v / 256 % 256) as u8, (v / 65536 % 256) as u8, 0xffu8]
    } else {
        [(v / 256 % 256) as u8, (v / 65536 % 256) as u8, (v / 16777216 % 256) as u8, (v % 256) as u8]
    }
}

/// The hex digit for `d` (0 to 15), lower or upper case.
pub open spec fn hex_char(d: int, upper: bool) -> char {
    if d < 10 {
        ('0' as int + d) as char
    } else if upper {
        ('A' as int + d - 10) as char
    } else {
        ('a' as int + d - 10) as char
    }
}

/// `x` as two hex digits (`{:02x}`, or `{:02X}` when `upper`).
pub open spec fn hex2(x: u8, upper: bool) -> Seq<char> {
    seq![hex_char(x as int / 16, upper), hex_char(x as int % 16, upper)]
}

proof fn lemma_hex_char(d: int, upper: bool)
    requires
        0 <= d < 16,
    ensures
        is_hex(hex_char(d, upper)),
        hex_val(hex_char(d, upper)) == d,
{
}

/// Law: a color written as two hex digits per channel (`RRGGBB`, or
/// `RRGGBBAA`), after an optional `#` and in either case, parses back to
/// exactly that color (opaque when there is no alpha).
pub proof fn hex_colors_read_back(r: u8, g: u8, b: u8, a: u8, hash: bool, upper: bool)
    ensures
        ({
            let p = if hash {
                seq!['#']
            } else {
                seq![]
            };
            let s6 = p + hex2(r, upper) + hex2(g, upper) + hex2(b, upper);
            let s8 = s6 + hex2(a, upper);
            &&& color_ok(s6) && color_px(s6)@ == seq![b, g, r, 0xffu8]
            &&& color_ok(s8) && color_px(s8)@ == seq![b, g, r, a]
        }),
{
    let p = if hash {
        seq!['#']
    } else {
        seq![]
    };
    let d6 = hex2(r, upper) + hex2(g, upper) + hex2(b, upper);
    let d8 = d6 + hex2(a, upper);
    let s6 = p + d6;
    let s8 = s6 + hex2(a, upper);
    assert(s6 =~= p + hex2(r, upper) + hex2(g, upper) + hex2(b, upper));
    assert(s8 =~= p + d8);
    lemma_hex_char(r as int / 16, upper);
    lemma_hex_char(r as int % 16, upper);
    lemma_hex_char(g as int / 16, upper);
    lemma_hex_char(g as int % 16, upper);
    lemma_hex_char(b as int / 16, upper);
    lemma_hex_char(b as int % 16, upper);
    lemma_hex_char(a as int / 16, upper);
    lemma_hex_char(a as int % 16, upper);
    assert(color_body(s6) =~= d6) by {
        if hash {
            assert(s6[0] == '#');
            assert(s6.drop_first() =~= d6);
        } else {
            assert(s6 =~= d6);
            assert(hex_char(r as int / 16, upper) != '#');
        }
    }
    assert(color_body(s8) =~= d8) by {
        if hash {
            assert(s8[0] == '#');
            assert(s8.drop_first() =~= d8);
        } else {
            assert(s8 =~= d8);
            assert(hex_char(r as int / 16, upper) != '#');
        }
    }
    assert(forall|i: int| 0 <= i < d8.len() ==> is_hex(#[trigger] d8[i]));
    assert(forall|i: int| 0 <= i < d6.len() ==> is_hex(#[trigger] d6[i]));
    let (r1, r0, g1, g0, b1, b0, a1, a0) = (
        r as int / 16,
        r as int % 16,
        g as int / 16,
        g as int % 16,
        b as int / 16,
        b as int % 16,
        a as int / 16,
        a as int % 16,
    );
    reveal_with_fuel(hex_value, 9);
    assert(d6.take(5) =~= d6.drop_last());
    let v6 = hex_value(d6);
    let v8 = hex_value(d8);
    assert(d8.drop_last() =~= d8.take(7));
    assert(d8.take(7).drop_last() =~= d6);
    assert(v6 == ((((r1 * 16 + r0) * 16 + g1) * 16 + g0) * 16 + b1) * 16 + b0);
    assert(v8 == (v6 * 16 + a1) * 16 + a0);
    assert(v6 == r * 65536 + g * 256 + b && v8 == v6 * 256 + a) by (nonlinear_arith)
        requires
            v6 == ((((r1 * 16 + r0) * 16 + g1) * 16 + g0) * 16 + b1) * 16 + b0,
            v8 == (v6 * 16 + a1) * 16 + a0,
            r == r1 * 16 + r0,
            g == g1 * 16 + g0,
            b == b1 * 16 + b0,
            a == a1 * 16 + a0,
    ;
    assert(v6 % 256 == b && v6 / 256 % 256 == g && v6 / 65536 % 256 == r) by (nonlinear_arith)
        requires
            v6 == r * 65536 + g * 256 + b,
            0 <= r < 256,
            0 <= g < 256,
            0 <= b < 256,
    ;
    assert(v8 % 256 == a && v8 / 256 % 256 == b && v8 / 65536 % 256 == g && v8 / 16777216 % 256
        == r) by (nonlinear_arith)
        requires
            v8 == (r * 65536 + g * 256 + b) * 256 + a,
            0 <= r < 256,
            0 <= g < 256,
            0 <= b < 256,
            0 <= a < 256,
    ;
}

/// The digit value of a hex character.
fn hex_digit(c: char) -> (r: Option<u32>)
    ensures
        r is Some <==> is_hex(c),
        r matches Some(v) ==> v == hex_val(c) && v < 16,
{
    if '0' <= c && c <= '9' {
        Some(c as u32 - '0' as u32)
    } else if 'a' <= c && c <= 'f' {
        Some(c as u32 - 'a' as u32 + 10)
    } else if 'A' <= c && c <= 'F' {
        Some(c as u32 - 'A' as u32 + 10)
    } else {
        None
    }
}

/// `16^n`.
pub open spec fn pow16(n: nat) -> nat
    decreases n,
{
    if n == 0 {
        1
    } else {
        16 * pow16((n - 1) as nat)
    }
}

proof fn lemma_pow16_mono(a: nat, b: nat)
    requires
        a <= b,
    ensures
        pow16(a) <= pow16(b),
    decreases b,
{
    if a < b {
        lemma_pow16_mono(a, (b - 1) as nat);
    }
}

proof fn lemma_hex_value_bound(s: Seq<char>)
    requires
        forall|i: int| 0 <= i < s.len() ==> is_hex(#[trigger] s[i]),
    ensures
        hex_value(s) < pow16(s.len()),
    decreases s.len(),
{
    if s.len() > 0 {
        let t = s.drop_last();
        assert forall|i: int| 0 <= i < t.len() implies is_hex(#[trigger] t[i]) by {
            assert(t[i] == s[i]);
        }
        lemma_hex_value_bound(t);
        assert(is_hex(s[s.len() - 1]));
        let p = pow16(t.len());
        let h = hex_value(t);
        assert(h * 16 + hex_val(s.last()) < p * 16) by (nonlinear_arith)
            requires
                h < p,
                0 <= hex_val(s.last()) < 16,
        ;
    }
}

/// The number written by the hex digits `cs[i..]` (at most eight of them).
fn parse_hex_u32(cs: &Vec<char>, i: usize) -> (r: Option<u32>)
    requires
        i <= cs@.len(),
        cs@.len() - i <= 8,
    ensures
        r is Some <==> forall|k: int| 0 <= k < cs@.skip(i as int).len() ==> is_hex(
            #[trigger] cs@.skip(i as int)[k],
        ),
        r matches Some(v) ==> v == hex_value(cs@.skip(i as int)),
{
    let ghost d = cs@.skip(i as int);
    let mut v: u32 = 0;
    let mut j = i;
    assert(d.take(0) =~= seq![]);
    while j < cs.len()
        invariant
            d == cs@.skip(i as int),
            i <= j <= cs@.len(),
            cs@.len() - i <= 8,
            v == hex_value(d.take(j - i)),
            forall|k: int| 0 <= k < j - i ==> is_hex(#[trigger] d[k]),
        decreases cs@.len() - j,
    {
        match hex_digit(cs[j]) {
            Some(x) => {
                proof {
                    let t = d.take(j - i + 1);
                    assert(t.drop_last() =~= d.take(j - i));
                    assert(t.last() == cs@[j as int]);
                    assert forall|k: int| 0 <= k < t.len() implies is_hex(#[trigger] t[k]) by {
                        assert(t[k] == d[k]);
                    }
                    lemma_hex_value_bound(t);
                    lemma_pow16_mono(t.len(), 8);
                    assert(pow16(8) == 4294967296) by {
                        reveal_with_fuel(pow16, 9);
                    }
                }
                v = v * 16 + x;
            },
            None => {
                assert(!is_hex(d[j - i]));
                return None;
            },
        }
        j += 1;
    }
    assert(d.take(j - i) =~= d);
    Some(v)
}

/// Parse a wmenu `RRGGBB` or `RRGGBBAA` color (optionally `#`-prefixed) into
/// BGRA `[b, g, r, a]`.
pub fn parse_color(s: &str) -> (r: Option<Bgra>)
    ensures
        r is Some <==> color_ok(s@),
        r matches Some(p) ==> p == color_px(s@),
{
    let cs = chars_of(s);
    let mut start: usize = 0;
    if cs.len() > 0 && cs[0] == '#' {
        start = 1;
    }
    let body_len = cs.len() - start;
    let ghost body = color_body(s@);
    assert(body =~= s@.skip(start as int));
    if body_len != 6 && body_len != 8 {
        return None;
    }
    let v = match parse_hex_u32(&cs, start) {
        Some(v) => v,
        None => return None,
    };
    if body_len == 6 {
        Some([(v % 256) as u8, (v / 256 % 256) as u8, (v / 65536 % 256) as u8, 0xff])
    } else {
        Some([(v / 256 % 256) as u8, (v / 65536 % 256) as u8, (v / 16777216 % 256) as u8, (v % 256) as u8])
    }
}

/// One visible item row (text already resolved).
pub struct Row<'a> {
    pub text: &'a str,
    pub selected: bool,
}

/// Antialiasing mode for text: LCD subpixel modes sample coverage in three
/// horizontal sub-columns and feed them to R, G and B separately; `Gray` is
/// neutral, `Bgr` is for panels wired blue-green-red.
#[derive(Debug, Clone, Copy, PartialEq, Eq)]
pub enum Subpixel {
    Gray,
    Rgb,
    Bgr,
}

/// `-P` password mode: one asterisk per character; otherwise the query unchanged.
pub fn masked_input(query: &str, password: bool) -> (r: String)
    ensures
        password ==> r@ == Seq::new(query@.len(), |i: int| '*'),
        !password ==> r@ == query@,
{
    if password {
        let n = chars_of(query).len();
        let mut r = String::new();
        for i in 0..n
            invariant
                r@ == Seq::new(i as nat, |k: int| '*'),
        {
            push_char(&mut r, '*');
            assert(r@ =~= Seq::new((i + 1) as nat, |k: int| '*'));
        }
        r
    } else {
        String::from_str(query)
    }
}


/// `s` is the integer square root of `n`.
pub open spec fn is_isqrt(n: int, s: int) -> bool {
    0 <= s && s * s <= n && n < (s + 1) * (s + 1)
}

/// The integer square root of `n` (the largest `s` with `s * s <= n`).
pub open spec fn isqrt(n: nat) -> nat {
    choose|s: nat| is_isqrt(n as int, s as int)
}

proof fn lemma_isqrt_unique(n: nat, s: nat)
    requires
        is_isqrt(n as int, s as int),
    ensures
        isqrt(n) == s,
{
    let t = isqrt(n);
    assert(is_isqrt(n as int, t as int));
    if t < s {
        assert((t + 1) * (t + 1) <= s * s) by (nonlinear_arith)
            requires
                t + 1 <= s,
        ;
    } else if s < t {
        assert((s + 1) * (s + 1) <= t * t) by (nonlinear_arith)
            requires
                s + 1 <= t,
        ;
    }
}

/// Integer square root by bisection.
fn isqrt_u64(n: u64) -> (s: u64)
    ensures
        is_isqrt(n as int, s as int),
        s == isqrt(n as nat),
{
    let mut lo: u64 = 0;
    let mut hi: u64 = 0xffff_ffff;
    assert(n < (hi + 1) * (hi + 1)) by (nonlinear_arith)
        requires
            hi == 0xffff_ffff,
            n <= 0xffff_ffff_ffff_ffff,
    ;
    while lo < hi
        invariant
            lo <= hi <= 0xffff_ffff,
            lo * lo <= n,
            n < (hi + 1) * (hi + 1),
        decreases hi - lo,
    {
        let mid = lo + (hi - lo + 1) / 2;
        assert(mid * mid <= 0xffff_ffff * 0xffff_ffff) by (nonlinear_arith)
            requires
                mid <= 0xffff_ffff,
        ;
        if mid * mid <= n {
            lo = mid;
        } else {
            hi = mid - 1;
        }
    }
    proof {
        lemma_isqrt_unique(n as nat, lo as nat);
    }
    lo
}

/// The corner radius actually used: clamped to half of each dimension.
pub open spec fn eff_radius(w: u32, h: u32, r: u32) -> int {
    let a = if r < w / 2 {
        r as int
    } else {
        (w / 2) as int
    };
    if a < h / 2 {
        a
    } else {
        (h / 2) as int
    }
}

/// Horizontal inset of the rounded outline at a corner row whose pixel
/// center lies `d / 2` rows beyond the straight edge (`d` odd): the least
/// whole number of pixels that keeps the pixel inside the circle, i.e.
/// `ceil(r - sqrt(r² - (d/2)²))`.
pub open spec fn corner_inset(re: int, d: int) -> int {
    if d < 2 * re {
        re - isqrt((4 * re * re - d * d) as nat) / 2
    } else {
        re
    }
}

/// The span `[x0, x1)` of the rounded panel at row `y`.
pub open spec fn span_spec(w: u32, h: u32, r: u32, y: u32) -> (int, int) {
    let re = eff_radius(w, h, r);
    if re == 0 {
        if y < h {
            (0, w as int)
        } else {
            (0, 0)
        }
    } else {
        let k = 2 * y + 1;
        let top2 = 2 * re;
        let bottom2 = 2 * h - 2 * re;
        if top2 <= k && k <= bottom2 {
            (0, w as int)
        } else {
            let d = if k < top2 {
                top2 - k
            } else {
                k - bottom2
            };
            let inset = corner_inset(re, d);
            (
                if inset < w {
                    inset
                } else {
                    w as int
                },
                if inset < w {
                    w - inset
                } else {
                    0
                },
            )
        }
    }
}

/// Horizontal pixel span `[x0, x1)` of the rounded panel at row `y`
/// (x0 inclusive, x1 exclusive). Corner pixels fall outside the span;
/// middle rows span the full width. Radius is clamped to half a dimension.
pub fn rounded_span(w: u32, h: u32, r: u32, y: u32) -> (s: (u32, u32))
    requires
        eff_radius(w, h, r) <= 0xffff,
    ensures
        s.0 == span_spec(w, h, r, y).0,
        s.1 == span_spec(w, h, r, y).1,
        s.0 <= s.1 <= w,
{
    let a = if r < w / 2 {
        r
    } else {
        w / 2
    };
    let re = if a < h / 2 {
        a
    } else {
        h / 2
    };
    if re == 0 {
        return if y < h {
            (0, w)
        } else {
            (0, 0)
        };
    }
    let re64 = re as u64;
    let k = 2 * (y as u64) + 1;
    let top2 = 2 * re64;
    let bottom2 = 2 * (h as u64) - 2 * re64;
    if top2 <= k && k <= bottom2 {
        return (0, w);
    }
    let d = if k < top2 {
        top2 - k
    } else {
        k - bottom2
    };
    let inset: u64 = if d < 2 * re64 {
        assert(d * d < 4 * re64 * re64) by (nonlinear_arith)
            requires
                d < 2 * re64,
        ;
        assert(4 * re64 * re64 <= 4 * 0xffff * 0xffff) by (nonlinear_arith)
            requires
                re64 <= 0xffff,
        ;
        let n = 4 * re64 * re64 - d * d;
        let s = isqrt_u64(n);
        assert(s <= 2 * re64) by (nonlinear_arith)
            requires
                s * s <= n,
                n <= 4 * re64 * re64,
        ;
        re64 - s / 2
    } else {
        re64
    };
    if inset < w as u64 {
        (inset as u32, w - inset as u32)
    } else {
        (w, 0)
    }
}

/// Law: the rounded outline is symmetric top to bottom.
pub proof fn rounded_span_is_symmetric(w: u32, h: u32, r: u32, y: u32)
    requires
        y < h,
    ensures
        span_spec(w, h, r, y) == span_spec(w, h, r, (h - 1 - y) as u32),
{
}

/// Thumb length: the visible/total share of the track, at least one pixel.
pub open spec fn thumb_len(track_h: u32, visible: usize, total: usize) -> int {
    let t = (track_h * visible) / (total as int);
    if t < 1 {
        1
    } else if t > track_h {
        track_h as int
    } else {
        t
    }
}

/// Thumb offset from the track top for scroll position `top`.
pub open spec fn thumb_offset(track_h: u32, visible: usize, total: usize, top: usize) -> int {
    let max_top = total - visible;
    let t = if top < max_top {
        top as int
    } else {
        max_top
    };
    ((track_h - thumb_len(track_h, visible, total)) * t) / max_top
}

/// There is something to scroll: the list overflows a non-empty track.
pub open spec fn overflows(track_h: u32, visible: usize, total: usize) -> bool {
    visible > 0 && total > visible && track_h > 0
}

/// Scrollbar thumb `(y, h)` for a `visible`-row viewport over `total` items at
/// scroll offset `top`, inside a track starting at `track_y` with height
/// `track_h`. `None` when everything fits (or there is no track). Length tracks
/// the visible/total ratio so the indicator reads as "list continues".
pub fn scroll_thumb(
    track_y: u32,
    track_h: u32,
    visible: usize,
    total: usize,
    top: usize,
) -> (t: Option<(u32, u32)>)
    requires
        overflows(track_h, visible, total) ==> {
            &&& track_h * visible <= u64::MAX
            &&& (track_h - thumb_len(track_h, visible, total)) * (if top < total - visible {
                top as int
            } else {
                total - visible
            }) <= u64::MAX
            &&& track_y + thumb_offset(track_h, visible, total, top) <= u32::MAX
        },
    ensures
        t is None <==> !overflows(track_h, visible, total),
        t matches Some((ty, th)) ==> {
            &&& th == thumb_len(track_h, visible, total)
            &&& ty == track_y + thumb_offset(track_h, visible, total, top)
        },
{
    if visible == 0 || total <= visible || track_h == 0 {
        return None;
    }
    let prod = track_h as u64 * visible as u64;
    let q = prod / total as u64;
    let th: u32 = if q < 1 {
        1
    } else if q > track_h as u64 {
        track_h
    } else {
        q as u32
    };
    let max_top = (total - visible) as u64;
    let span = (track_h - th) as u64;
    let t = if (top as u64) < max_top {
        top as u64
    } else {
        max_top
    };
    assert(span * t <= span * max_top) by (nonlinear_arith)
        requires
            t <= max_top,
    ;
    assert(span * t <= u64::MAX);
    assert((span * t) / (max_top as int) <= span) by (nonlinear_arith)
        requires
            span * t <= span * max_top,
            t <= max_top,
            max_top > 0,
    ;
    let off = (span * t) / max_top;
    Some((track_y + off as u32, th))
}

/// Law: scrolling further down never moves the thumb up.
pub proof fn scroll_thumb_follows_the_list(
    track_h: u32,
    visible: usize,
    total: usize,
    top1: usize,
    top2: usize,
)
    requires
        overflows(track_h, visible, total),
        top1 <= top2,
    ensures
        thumb_offset(track_h, visible, total, top1) <= thumb_offset(track_h, visible, total, top2),
{
    let th = thumb_len(track_h, visible, total);
    let max_top = total - visible;
    let t1 = if top1 < max_top {
        top1 as int
    } else {
        max_top
    };
    let t2 = if top2 < max_top {
        top2 as int
    } else {
        max_top
    };
    let span = track_h - th;
    assert(span >= 0);
    assert((span * t1) / max_top <= (span * t2) / max_top) by (nonlinear_arith)
        requires
            0 <= t1 <= t2,
            0 <= span,
            max_top > 0,
    ;
}

/// Law: the thumb lies inside its track, starts at the track top when the
/// list is scrolled to the top and ends at the track bottom at the end.
pub proof fn scroll_thumb_stays_in_its_track(
    track_y: u32,
    track_h: u32,
    visible: usize,
    total: usize,
    top: usize,
)
    requires
        overflows(track_h, visible, total),
    ensures
        1 <= thumb_len(track_h, visible, total) <= track_h,
        0 <= thumb_offset(track_h, visible, total, top),
        thumb_offset(track_h, visible, total, top) + thumb_len(track_h, visible, total)
            <= track_h,
        top == 0 ==> thumb_offset(track_h, visible, total, top) == 0,
        top >= total - visible ==> thumb_offset(track_h, visible, total, top) + thumb_len(
            track_h,
            visible,
            total,
        ) == track_h,
{
    let th = thumb_len(track_h, visible, total);
    let max_top = total - visible;
    let t = if top < max_top {
        top as int
    } else {
        max_top
    };
    let span = track_h - th;
    assert(0 <= span * t <= span * max_top) by (nonlinear_arith)
        requires
            0 <= t <= max_top,
            0 <= span,
    ;
    assert((span * t) / max_top <= span) by (nonlinear_arith)
        requires
            0 <= span * t <= span * max_top,
            max_top > 0,
    ;
    assert((span * max_top) / max_top == span) by (nonlinear_arith)
        requires
            max_top > 0,
    ;
    if top == 0 {
        assert(t == 0);
        assert((span * t) / max_top == 0) by (nonlinear_arith)
            requires
                t == 0,
                max_top > 0,
        ;
    }
}


/// Fully transparent pixel: everything outside the rounded panel outline.
pub const CLEAR: Bgra = [0, 0, 0, 0];

/// Byte `c` of pixel `(x, y)` in a `w`-wide buffer.
pub open spec fn at(w: u32, x: int, y: int, c: int) -> int {
    4 * (y * w + x) + c
}

/// Row/column bookkeeping: pixel `(x, y)` of a `w`-wide buffer lies in the
/// pixel range `[py * w + x0, py * w + x1)` exactly when it is on row `py`
/// between columns `x0` and `x1`.
proof fn lemma_row_range(w: int, x: int, y: int, py: int, x0: int, x1: int)
    requires
        0 <= x < w,
        0 <= y,
        0 <= py,
        0 <= x0 <= x1 <= w,
    ensures
        (py * w + x0 <= y * w + x < py * w + x1) <==> (y == py && x0 <= x < x1),
{
    if y < py {
        assert(y * w + x < py * w) by (nonlinear_arith)
            requires
                y < py,
                0 <= x < w,
        ;
    } else if y > py {
        assert(y * w + x >= py * w + w) by (nonlinear_arith)
            requires
                y > py,
                0 <= x,
                0 <= w,
        ;
    }
}

/// Pixel `(x, y)` with `x < w`, `y < h` lies inside a `w * h` buffer.
proof fn lemma_in_buffer(w: int, h: int, x: int, y: int)
    requires
        0 <= x < w,
        0 <= y < h,
    ensures
        0 <= y * w + x < w * h,
{
    assert(y * w + x < w * h) by (nonlinear_arith)
        requires
            0 <= x < w,
            0 <= y < h,
    ;
    assert(0 <= y * w) by (nonlinear_arith)
        requires
            0 <= y,
            0 <= w,
    ;
}

/// Paint pixels `[from, to)` (pixel indices) with `color`.
fn fill(buf: &mut [u8], from: usize, to: usize, color: Bgra)
    requires
        from <= to,
        4 * to <= old(buf)@.len(),
    ensures
        final(buf)@.len() == old(buf)@.len(),
        forall|j: int|
            0 <= j < old(buf)@.len() ==> #[trigger] final(buf)@[j] == if 4 * from <= j < 4 * to {
                color[j % 4]
            } else {
                old(buf)@[j]
            },
{
    let mut p = from;
    assert(buf@.len() == buf.len());
    while p < to
        invariant
            from <= p <= to,
            4 * to <= buf@.len(),
            buf@.len() == buf.len(),
            buf@.len() == old(buf)@.len(),
            forall|j: int|
                0 <= j < buf@.len() ==> #[trigger] buf@[j] == if 4 * from <= j < 4 * p {
                    color[j % 4]
                } else {
                    old(buf)@[j]
                },
        decreases to - p,
    {
        let i = 4 * p;
        buf[i] = color[0];
        buf[i + 1] = color[1];
        buf[i + 2] = color[2];
        buf[i + 3] = color[3];
        p += 1;
    }
}

/// Paint the pixels `[x0, x1)` of row `y` with `color`.
pub fn set_span(buf: &mut [u8], w: u32, y: u32, x0: u32, x1: u32, color: Bgra)
    requires
        x0 <= x1 <= w,
        y * w + x1 <= u32::MAX,
        4 * (y * w + x1) <= old(buf)@.len(),
    ensures
        final(buf)@.len() == old(buf)@.len(),
        forall|j: int|
            0 <= j < old(buf)@.len() ==> #[trigger] final(buf)@[j] == if at(w, x0 as int, y as int, 0)
                <= j < at(w, x1 as int, y as int, 0) {
                color[j % 4]
            } else {
                old(buf)@[j]
            },
{
    assert(y * w <= y * w + x0) by (nonlinear_arith)
        requires
            x0 >= 0,
    ;
    let row = y * w;
    fill(buf, (row + x0) as usize, (row + x1) as usize, color);
}

/// Pixel `(x, y)` lies in the rectangle at `(rx, ry)` of size `rw * rh`
/// clipped to the `w * h` buffer.
pub open spec fn in_rect(x: int, y: int, rx: u32, ry: u32, rw: u32, rh: u32) -> bool {
    rx <= x < rx + rw && ry <= y < ry + rh
}

/// Fill the rectangle `(x, y, rw, rh)`, clipped to the `w * h` buffer.
pub fn rect(buf: &mut [u8], w: u32, h: u32, x: u32, y: u32, rw: u32, rh: u32, color: Bgra)
    requires
        x + rw <= u32::MAX,
        y + rh <= u32::MAX,
        w * h <= u32::MAX,
        4 * (w * h) <= old(buf)@.len(),
    ensures
        final(buf)@.len() == old(buf)@.len(),
        forall|px: int, py: int, c: int|
            0 <= px < w && 0 <= py < h && 0 <= c < 4 ==> #[trigger] final(buf)@[at(w, px, py, c)]
                == if in_rect(px, py, x, y, rw, rh) {
                color[c]
            } else {
                old(buf)@[at(w, px, py, c)]
            },
        forall|j: int| 4 * (w * h) <= j < old(buf)@.len() ==> #[trigger] final(buf)@[j] == old(buf)@[j],
{
    let x0 = if x < w {
        x
    } else {
        w
    };
    let y0 = if y < h {
        y
    } else {
        h
    };
    let x1 = if x + rw < w {
        x + rw
    } else {
        w
    };
    let y1 = if y + rh < h {
        y + rh
    } else {
        h
    };
    let mut py = y0;
    while py < y1
        invariant
            x0 <= x1 <= w,
            y0 <= py <= y1 <= h,
            x0 == (if x < w { x } else { w }),
            x1 == (if x + rw < w { x + rw } else { w as int }),
            y0 == (if y < h { y } else { h }),
            y1 == (if y + rh < h { y + rh } else { h as int }),
            w * h <= u32::MAX,
            4 * (w * h) <= buf@.len(),
            buf@.len() == old(buf)@.len(),
            forall|px: int, qy: int, c: int|
                0 <= px < w && 0 <= qy < h && 0 <= c < 4 ==> #[trigger] buf@[at(w, px, qy, c)]
                    == if in_rect(px, qy, x, y, rw, rh) && qy < py {
                    color[c]
                } else {
                    old(buf)@[at(w, px, qy, c)]
                },
            forall|j: int| 4 * (w * h) <= j < buf@.len() ==> #[trigger] buf@[j] == old(buf)@[j],
        decreases y1 - py,
    {
        proof {
            assert(py * w + x1 <= w * h) by (nonlinear_arith)
                requires
                    py < h,
                    x1 <= w,
            ;
        }
        let ghost prev = buf@;
        set_span(buf, w, py, x0, x1, color);
        proof {
            assert forall|px: int, qy: int, c: int|
                0 <= px < w && 0 <= qy < h && 0 <= c < 4 implies #[trigger] buf@[at(
                    w,
                    px,
                    qy,
                    c,
                )] == if in_rect(px, qy, x, y, rw, rh) && qy < py + 1 {
                    color[c]
                } else {
                    old(buf)@[at(w, px, qy, c)]
                } by {
                lemma_row_range(w as int, px, qy, py as int, x0 as int, x1 as int);
                lemma_in_buffer(w as int, h as int, px, qy);
                assert(at(w, px, qy, c) % 4 == c);
            }
            assert forall|j: int| 4 * (w * h) <= j < buf@.len() implies #[trigger] buf@[j]
                == old(buf)@[j] by {
                assert(prev[j] == old(buf)@[j]);
            }
        }
        py += 1;
    }
    proof {
        assert forall|px: int, qy: int, c: int|
            0 <= px < w && 0 <= qy < h && 0 <= c < 4 implies #[trigger] buf@[at(w, px, qy, c)]
                == if in_rect(px, qy, x, y, rw, rh) {
                color[c]
            } else {
                old(buf)@[at(w, px, qy, c)]
            } by {
            if in_rect(px, qy, x, y, rw, rh) {
                assert(qy < py);
            }
        }
    }
}


/// One blended channel: `src` over `dst` at opacity `a / 255`.
pub open spec fn blend_byte(src: u8, dst: u8, a: int) -> int {
    (src * a + dst * (255 - a)) / 255
}

proof fn lemma_blend_bound(src: u8, dst: u8, a: int)
    requires
        0 <= a <= 255,
    ensures
        0 <= blend_byte(src, dst, a) <= 255,
{
    assert(0 <= src * a + dst * (255 - a) <= 255 * 255) by (nonlinear_arith)
        requires
            0 <= a <= 255,
            0 <= src <= 255,
            0 <= dst <= 255,
    ;
}

/// Blend `src` over the pixel at byte `i` (color channels only; the menu is
/// opaque, so alpha stays as it is).
pub fn blend_px(buf: &mut [u8], i: usize, src: [u8; 3], a: u32)
    requires
        a <= 255,
        i + 3 < old(buf)@.len(),
    ensures
        final(buf)@.len() == old(buf)@.len(),
        forall|j: int|
            0 <= j < old(buf)@.len() ==> #[trigger] final(buf)@[j] == if i <= j < i + 3 {
                blend_byte(src[j - i], old(buf)@[j], a as int) as u8
            } else {
                old(buf)@[j]
            },
{
    let inv = 255 - a;
    proof {
        lemma_blend_bound(src[0], buf@[i as int], a as int);
        lemma_blend_bound(src[1], buf@[i + 1], a as int);
        lemma_blend_bound(src[2], buf@[i + 2], a as int);
    }
    buf[i] = ((src[0] as u32 * a + buf[i] as u32 * inv) / 255) as u8;
    buf[i + 1] = ((src[1] as u32 * a + buf[i + 1] as u32 * inv) / 255) as u8;
    buf[i + 2] = ((src[2] as u32 * a + buf[i + 2] as u32 * inv) / 255) as u8;
}

/// One coverage plane of a rasterized glyph, positioned relative to the pen.
#[derive(Debug, Clone)]
pub struct GlyphPlane {
    pub min_x: i32,
    pub min_y: i32,
    pub w: u32,
    pub h: u32,
    /// Row-major coverage, `w * h` bytes.
    pub coverage: Vec<u8>,
}

/// Opacity of the plane's pixel `(gx, gy)` drawn in `color`.
pub open spec fn plane_alpha(plane: GlyphPlane, gx: int, gy: int, color: Bgra) -> int {
    (plane.coverage@[gy * plane.w + gx] * color[3]) / 255
}

/// The byte channel `c` is touched: all color channels for grayscale
/// antialiasing, only channel `k` for one LCD subpixel plane.
pub open spec fn chan_hits(chan: Option<usize>, c: int) -> bool {
    match chan {
        None => c < 3,
        Some(k) => c == k,
    }
}

/// What `blit_plane` leaves at byte `c` of pixel `(x, y)`.
pub open spec fn blit_px(
    old: Seq<u8>,
    w: u32,
    plane: GlyphPlane,
    ox: int,
    oy: int,
    color: Bgra,
    chan: Option<usize>,
    x: int,
    y: int,
    c: int,
) -> u8 {
    let gx = x - ox;
    let gy = y - oy;
    if 0 <= gx < plane.w && 0 <= gy < plane.h && plane_alpha(plane, gx, gy, color) > 0
        && chan_hits(chan, c) {
        blend_byte(color[c], old[at(w, x, y, c)], plane_alpha(plane, gx, gy, color)) as u8
    } else {
        old[at(w, x, y, c)]
    }
}

/// Two bytes of pixels inside a `w`-wide buffer coincide only for the same
/// pixel and channel.
proof fn lemma_at_injective(w: int, x1: int, y1: int, c1: int, x2: int, y2: int, c2: int)
    requires
        0 <= x1 < w,
        0 <= x2 < w,
        0 <= y1,
        0 <= y2,
        0 <= c1 < 4,
        0 <= c2 < 4,
        4 * (y1 * w + x1) + c1 == 4 * (y2 * w + x2) + c2,
    ensures
        x1 == x2 && y1 == y2 && c1 == c2,
{
    assert(y1 * w + x1 == y2 * w + x2);
    lemma_row_range(w, x1, y1, y2, x2, x2 + 1);
}

/// Blend one coverage plane with its origin at pen position `(dx, dy)`:
/// across all channels (grayscale AA, `chan = None`) or into a single
/// channel (LCD subpixel AA). Pixels outside the buffer are skipped.
pub fn blit_plane(
    buf: &mut [u8],
    w: u32,
    h: u32,
    plane: &GlyphPlane,
    dx: i32,
    dy: i32,
    color: Bgra,
    chan: Option<usize>,
)
    requires
        4 * (w * h) <= u32::MAX,
        4 * (w * h) <= old(buf)@.len(),
        plane.w * plane.h <= u32::MAX,
        plane.w <= i32::MAX,
        plane.h <= i32::MAX,
        w <= i32::MAX,
        h <= i32::MAX,
        plane.coverage@.len() == plane.w * plane.h,
        i32::MIN <= dx + plane.min_x,
        dx + plane.min_x + plane.w <= i32::MAX,
        i32::MIN <= dy + plane.min_y,
        dy + plane.min_y + plane.h <= i32::MAX,
        chan matches Some(k) ==> k < 4,
    ensures
        final(buf)@.len() == old(buf)@.len(),
        forall|x: int, y: int, c: int|
            0 <= x < w && 0 <= y < h && 0 <= c < 4 ==> #[trigger] final(buf)@[at(w, x, y, c)]
                == blit_px(
                old(buf)@,
                w,
                *plane,
                dx + plane.min_x,
                dy + plane.min_y,
                color,
                chan,
                x,
                y,
                c,
            ),
        forall|j: int| 4 * (w * h) <= j < old(buf)@.len() ==> #[trigger] final(buf)@[j] == old(buf)@[j],
{
    let ghost ox = dx + plane.min_x;
    let ghost oy = dy + plane.min_y;
    let mut gy: u32 = 0;
    while gy < plane.h
        invariant
            gy <= plane.h,
            4 * (w * h) <= u32::MAX,
            4 * (w * h) <= buf@.len(),
            buf@.len() == old(buf)@.len(),
            plane.w * plane.h <= u32::MAX,
            plane.w <= i32::MAX,
            plane.h <= i32::MAX,
            w <= i32::MAX,
            h <= i32::MAX,
            plane.coverage@.len() == plane.w * plane.h,
            ox == dx + plane.min_x,
            oy == dy + plane.min_y,
            i32::MIN <= ox,
            ox + plane.w <= i32::MAX,
            i32::MIN <= oy,
            oy + plane.h <= i32::MAX,
            chan matches Some(k) ==> k < 4,
            forall|x: int, y: int, c: int|
                0 <= x < w && 0 <= y < h && 0 <= c < 4 ==> #[trigger] buf@[at(w, x, y, c)] == if y
                    - oy < gy {
                    blit_px(old(buf)@, w, *plane, ox, oy, color, chan, x, y, c)
                } else {
                    old(buf)@[at(w, x, y, c)]
                },
            forall|j: int| 4 * (w * h) <= j < buf@.len() ==> #[trigger] buf@[j] == old(buf)@[j],
        decreases plane.h - gy,
    {
        let mut gx: u32 = 0;
        while gx < plane.w
            invariant
                gy < plane.h,
                gx <= plane.w,
                4 * (w * h) <= u32::MAX,
                4 * (w * h) <= buf@.len(),
                buf@.len() == old(buf)@.len(),
                plane.w * plane.h <= u32::MAX,
                plane.w <= i32::MAX,
                plane.h <= i32::MAX,
                w <= i32::MAX,
                h <= i32::MAX,
                plane.coverage@.len() == plane.w * plane.h,
                ox == dx + plane.min_x,
                oy == dy + plane.min_y,
                i32::MIN <= ox,
                ox + plane.w <= i32::MAX,
                i32::MIN <= oy,
                oy + plane.h <= i32::MAX,
                chan matches Some(k) ==> k < 4,
                forall|x: int, y: int, c: int|
                    0 <= x < w && 0 <= y < h && 0 <= c < 4 ==> #[trigger] buf@[at(w, x, y, c)]
                        == if y - oy < gy || (y - oy == gy && x - ox < gx) {
                        blit_px(old(buf)@, w, *plane, ox, oy, color, chan, x, y, c)
                    } else {
                        old(buf)@[at(w, x, y, c)]
                    },
                forall|j: int| 4 * (w * h) <= j < buf@.len() ==> #[trigger] buf@[j] == old(buf)@[j],
            decreases plane.w - gx,
        {
            proof {
                assert(gy * plane.w + gx < plane.w * plane.h) by (nonlinear_arith)
                    requires
                        gy < plane.h,
                        gx < plane.w,
                ;
            }
            let cov = plane.coverage[(gy * plane.w + gx) as usize];
            let px = dx + plane.min_x + gx as i32;
            let py = dy + plane.min_y + gy as i32;
            proof {
                assert(cov * color[3] <= 255 * 255) by (nonlinear_arith)
                    requires
                        cov <= 255,
                        color[3] <= 255,
                ;
            }
            let a = (cov as u32 * color[3] as u32) / 255;
            let ghost prev = buf@;
            if cov != 0 && px >= 0 && py >= 0 && px < w as i32 && py < h as i32 && a != 0 {
                proof {
                    lemma_in_buffer(w as int, h as int, px as int, py as int);
                    assert(4 * (py * w + px) + 3 < 4 * (w * h));
                }
                let base = ((py as u32 * w + px as u32) * 4) as usize;
                match chan {
                    None => blend_px(buf, base, [color[0], color[1], color[2]], a),
                    Some(c) => {
                        proof {
                            lemma_blend_bound(color[c as int], buf@[base + c], a as int);
                        }
                        let v = buf[base + c] as u32;
                        buf[base + c] = ((color[c] as u32 * a + v * (255 - a)) / 255) as u8;
                    },
                }
                proof {
                    assert forall|x: int, y: int, c: int|
                        0 <= x < w && 0 <= y < h && 0 <= c < 4 implies #[trigger] buf@[at(
                            w,
                            x,
                            y,
                            c,
                        )] == if y - oy < gy || (y - oy == gy && x - ox < gx + 1) {
                            blit_px(old(buf)@, w, *plane, ox, oy, color, chan, x, y, c)
                        } else {
                            old(buf)@[at(w, x, y, c)]
                        } by {
                        lemma_in_buffer(w as int, h as int, x, y);
                        if x == px && y == py {
                            assert(plane_alpha(*plane, gx as int, gy as int, color) == a);
                        } else {
                            if at(w, x, y, c) >= base && at(w, x, y, c) < base + 4 {
                                lemma_at_injective(
                                    w as int,
                                    x,
                                    y,
                                    c,
                                    px as int,
                                    py as int,
                                    at(w, x, y, c) - base,
                                );
                            }
                        }
                    }
                }
            } else {
                proof {
                    assert forall|x: int, y: int, c: int|
                        0 <= x < w && 0 <= y < h && 0 <= c < 4 implies #[trigger] buf@[at(
                            w,
                            x,
                            y,
                            c,
                        )] == if y - oy < gy || (y - oy == gy && x - ox < gx + 1) {
                            blit_px(old(buf)@, w, *plane, ox, oy, color, chan, x, y, c)
                        } else {
                            old(buf)@[at(w, x, y, c)]
                        } by {
                        if x == px && y == py {
                            assert(plane_alpha(*plane, gx as int, gy as int, color) == a);
                            assert(a == 0 || cov == 0);
                            if cov == 0 {
                                assert(cov * color[3] == 0) by (nonlinear_arith)
                                    requires
                                        cov == 0,
                                ;
                            }
                            assert(plane_alpha(*plane, gx as int, gy as int, color) == 0);
                        }
                        assert(buf@[at(w, x, y, c)] == prev[at(w, x, y, c)]);
                    }
                }
            }
            gx += 1;
        }
        gy += 1;
    }
}

/// One step of painting a frame.
pub enum Paint {
    /// Fill the rectangle `(x, y, rw, rh)` (clipped to the buffer) with `color`.
    Fill { x: u32, y: u32, rw: u32, rh: u32, color: Bgra },
    /// Blend a glyph coverage plane with its top-left pixel at `(ox, oy)`.
    Glyph { plane: GlyphPlane, ox: int, oy: int, color: Bgra, chan: Option<usize> },
}

/// A frame as a function from pixel `(x, y)` and byte `c` to the byte shown.
pub open spec fn image(b: Seq<u8>, w: u32) -> spec_fn(int, int, int) -> u8 {
    |x: int, y: int, c: int| b[at(w, x, y, c)]
}

/// The buffer `b` holds the frame `f` on all of its `w * h` pixels.
pub open spec fn shows(b: Seq<u8>, w: u32, h: u32, f: spec_fn(int, int, int) -> u8) -> bool {
    forall|x: int, y: int, c: int|
        0 <= x < w && 0 <= y < h && 0 <= c < 4 ==> #[trigger] b[at(w, x, y, c)] == f(x, y, c)
}

/// Byte `c` of pixel `(x, y)` after painting `op` over `f`.
pub open spec fn paint_px(f: spec_fn(int, int, int) -> u8, op: Paint, x: int, y: int, c: int) -> u8 {
    match op {
        Paint::Fill { x: rx, y: ry, rw, rh, color } => if in_rect(x, y, rx, ry, rw, rh) {
            color[c]
        } else {
            f(x, y, c)
        },
        Paint::Glyph { plane, ox, oy, color, chan } => {
            let gx = x - ox;
            let gy = y - oy;
            if 0 <= gx < plane.w && 0 <= gy < plane.h && plane_alpha(plane, gx, gy, color) > 0
                && chan_hits(chan, c) {
                blend_byte(color[c], f(x, y, c), plane_alpha(plane, gx, gy, color)) as u8
            } else {
                f(x, y, c)
            }
        },
    }
}

/// The frame `f` with `op` painted over it.
pub open spec fn apply_op(f: spec_fn(int, int, int) -> u8, op: Paint) -> spec_fn(int, int, int) -> u8 {
    |x: int, y: int, c: int| paint_px(f, op, x, y, c)
}

/// The frame `f` with `ops` painted over it, in order.
pub open spec fn apply_ops(f: spec_fn(int, int, int) -> u8, ops: Seq<Paint>) -> spec_fn(
    int,
    int,
    int,
) -> u8
    decreases ops.len(),
{
    if ops.len() == 0 {
        f
    } else {
        apply_op(apply_ops(f, ops.drop_last()), ops.last())
    }
}

/// Painting `a` then `b` is painting `a + b`.
pub proof fn apply_ops_append(f: spec_fn(int, int, int) -> u8, a: Seq<Paint>, b: Seq<Paint>)
    ensures
        apply_ops(f, a + b) == apply_ops(apply_ops(f, a), b),
    decreases b.len(),
{
    if b.len() == 0 {
        assert(a + b =~= a);
    } else {
        assert((a + b).drop_last() =~= a + b.drop_last());
        assert((a + b).last() == b.last());
        apply_ops_append(f, a, b.drop_last());
    }
}

/// Painting a single step.
proof fn lemma_one_op(f: spec_fn(int, int, int) -> u8, op: Paint)
    ensures
        apply_ops(f, seq![op]) == apply_op(f, op),
{
    assert(seq![op].drop_last() =~= Seq::<Paint>::empty());
    assert(apply_ops(f, seq![op].drop_last()) == f);
    assert(seq![op].last() == op);
}

/// Painting is per pixel: what a pixel shows afterwards depends on nothing
/// but what that pixel showed before.
proof fn lemma_apply_ops_local(
    f: spec_fn(int, int, int) -> u8,
    g: spec_fn(int, int, int) -> u8,
    ops: Seq<Paint>,
    x: int,
    y: int,
    c: int,
)
    requires
        f(x, y, c) == g(x, y, c),
    ensures
        apply_ops(f, ops)(x, y, c) == apply_ops(g, ops)(x, y, c),
    decreases ops.len(),
{
    if ops.len() > 0 {
        lemma_apply_ops_local(f, g, ops.drop_last(), x, y, c);
    }
}

/// A buffer that showed `f` and then had `ops` painted over it shows
/// `f` with `ops` painted over it.
proof fn lemma_shows_after(
    prev: Seq<u8>,
    next: Seq<u8>,
    w: u32,
    h: u32,
    f: spec_fn(int, int, int) -> u8,
    ops: Seq<Paint>,
)
    requires
        shows(prev, w, h, f),
        shows(next, w, h, apply_ops(image(prev, w), ops)),
    ensures
        shows(next, w, h, apply_ops(f, ops)),
{
    assert forall|x: int, y: int, c: int| 0 <= x < w && 0 <= y < h && 0 <= c < 4 implies #[trigger] next[at(
        w,
        x,
        y,
        c,
    )] == apply_ops(f, ops)(x, y, c) by {
        assert(image(prev, w)(x, y, c) == prev[at(w, x, y, c)]);
        lemma_apply_ops_local(image(prev, w), f, ops, x, y, c);
    }
}

/// Fill the rectangle, as one painting step.
fn fill_rect(buf: &mut [u8], w: u32, h: u32, x: u32, y: u32, rw: u32, rh: u32, color: Bgra)
    requires
        x + rw <= u32::MAX,
        y + rh <= u32::MAX,
        4 * (w * h) <= u32::MAX,
        old(buf)@.len() == 4 * (w * h),
    ensures
        final(buf)@.len() == old(buf)@.len(),
        shows(
            final(buf)@,
            w,
            h,
            apply_ops(image(old(buf)@, w), seq![Paint::Fill { x, y, rw, rh, color }]),
        ),
{
    let ghost prev = buf@;
    rect(buf, w, h, x, y, rw, rh, color);
    proof {
        let op = Paint::Fill { x, y, rw, rh, color };
        lemma_one_op(image(prev, w), op);
        assert forall|px: int, py: int, c: int| 0 <= px < w && 0 <= py < h && 0 <= c < 4 implies #[trigger] buf@[at(
            w,
            px,
            py,
            c,
        )] == apply_ops(image(prev, w), seq![op])(px, py, c) by {
            assert(apply_op(image(prev, w), op)(px, py, c) == paint_px(image(prev, w), op, px, py, c));
        }
    }
}

/// Paint row `y`'s pixels `[x0, x1)`, as one painting step.
fn fill_span(buf: &mut [u8], w: u32, h: u32, y: u32, x0: u32, x1: u32, color: Bgra)
    requires
        x0 <= x1 <= w,
        y < h,
        4 * (w * h) <= u32::MAX,
        old(buf)@.len() == 4 * (w * h),
    ensures
        final(buf)@.len() == old(buf)@.len(),
        shows(
            final(buf)@,
            w,
            h,
            apply_ops(
                image(old(buf)@, w),
                seq![Paint::Fill { x: x0, y, rw: (x1 - x0) as u32, rh: 1, color }],
            ),
        ),
{
    proof {
        assert(y * w + x1 <= w * h) by (nonlinear_arith)
            requires
                y < h,
                x1 <= w,
        ;
    }
    let ghost prev = buf@;
    set_span(buf, w, y, x0, x1, color);
    proof {
        let op = Paint::Fill { x: x0, y, rw: (x1 - x0) as u32, rh: 1, color };
        lemma_one_op(image(prev, w), op);
        assert forall|px: int, py: int, c: int| 0 <= px < w && 0 <= py < h && 0 <= c < 4 implies #[trigger] buf@[at(
            w,
            px,
            py,
            c,
        )] == apply_ops(image(prev, w), seq![op])(px, py, c) by {
            lemma_row_range(w as int, px, py, y as int, x0 as int, x1 as int);
            lemma_in_buffer(w as int, h as int, px, py);
            assert(at(w, px, py, c) % 4 == c);
            assert(apply_op(image(prev, w), op)(px, py, c) == paint_px(image(prev, w), op, px, py, c));
        }
    }
}

/// Blend one glyph plane, as one painting step.
fn paint_plane(
    buf: &mut [u8],
    w: u32,
    h: u32,
    plane: &GlyphPlane,
    dx: i32,
    dy: i32,
    color: Bgra,
    chan: Option<usize>,
)
    requires
        4 * (w * h) <= u32::MAX,
        old(buf)@.len() == 4 * (w * h),
        w <= i32::MAX,
        h <= i32::MAX,
        plane_ok(*plane, dx as int, dy as int),
        chan matches Some(k) ==> k < 4,
    ensures
        final(buf)@.len() == old(buf)@.len(),
        shows(
            final(buf)@,
            w,
            h,
            apply_ops(
                image(old(buf)@, w),
                seq![
                    Paint::Glyph {
                        plane: *plane,
                        ox: dx + plane.min_x,
                        oy: dy + plane.min_y,
                        color,
                        chan,
                    },
                ],
            ),
        ),
{
    let ghost prev = buf@;
    blit_plane(buf, w, h, plane, dx, dy, color, chan);
    proof {
        let op = Paint::Glyph { plane: *plane, ox: dx + plane.min_x, oy: dy + plane.min_y, color, chan };
        lemma_one_op(image(prev, w), op);
        assert forall|px: int, py: int, c: int| 0 <= px < w && 0 <= py < h && 0 <= c < 4 implies #[trigger] buf@[at(
            w,
            px,
            py,
            c,
        )] == apply_ops(image(prev, w), seq![op])(px, py, c) by {
            assert(apply_op(image(prev, w), op)(px, py, c) == paint_px(image(prev, w), op, px, py, c));
        }
    }
}

/// A coverage plane that can be blended at pen position `(dx, dy)`.
pub open spec fn plane_ok(plane: GlyphPlane, dx: int, dy: int) -> bool {
    &&& plane.w * plane.h <= u32::MAX
    &&& plane.w <= i32::MAX
    &&& plane.h <= i32::MAX
    &&& plane.coverage@.len() == plane.w * plane.h
    &&& i32::MIN <= dx + plane.min_x
    &&& dx + plane.min_x + plane.w <= i32::MAX
    &&& i32::MIN <= dy + plane.min_y
    &&& dy + plane.min_y + plane.h <= i32::MAX
}

/// Painting `step` over a buffer that showed `ops` shows `ops + step`.
proof fn lemma_step(
    start: Seq<u8>,
    prev: Seq<u8>,
    next: Seq<u8>,
    w: u32,
    h: u32,
    ops: Seq<Paint>,
    step: Seq<Paint>,
)
    requires
        shows(prev, w, h, apply_ops(image(start, w), ops)),
        shows(next, w, h, apply_ops(image(prev, w), step)),
    ensures
        shows(next, w, h, apply_ops(image(start, w), ops + step)),
{
    lemma_shows_after(prev, next, w, h, apply_ops(image(start, w), ops), step);
    apply_ops_append(image(start, w), ops, step);
}

/// A glyph rasterized by the font and placed at a whole-pixel pen position:
/// one coverage plane for grayscale antialiasing, or one per LCD sub-column
/// (in sampling order, left to right) for subpixel antialiasing.
pub struct PlacedGlyph {
    pub planes: Vec<GlyphPlane>,
    pub dx: i32,
    pub dy: i32,
}

/// A frame's text as laid out by the font: the metrics `draw` needs, in
/// whole buffer pixels, and the glyphs of the prompt label, the typed input
/// and each row.
pub struct TextLayout {
    /// Row height (text line plus padding).
    pub row_h: u32,
    /// Text line height, rounded up.
    pub line_h: u32,
    /// Bottom of the input row's text block (baseline minus descent), rounded.
    pub caret_bottom: u32,
    /// Pen position just past the typed input (after the label and its gap).
    pub pen_x: u32,
    pub prompt: Vec<PlacedGlyph>,
    pub query: Vec<PlacedGlyph>,
    pub rows: Vec<Vec<PlacedGlyph>>,
}

/// The byte channel LCD sub-column `k` feeds (`None`: all color channels).
pub open spec fn plane_chan(sp: Subpixel, k: int) -> Option<usize> {
    match sp {
        Subpixel::Gray => None,
        Subpixel::Rgb => Some(
            if k == 0 {
                2usize
            } else if k == 1 {
                1usize
            } else {
                0usize
            },
        ),
        Subpixel::Bgr => Some(k as usize),
    }
}

/// How many of a glyph's planes are blended: the first one for grayscale,
/// all of them for LCD subpixel order.
pub open spec fn planes_used(g: PlacedGlyph, sp: Subpixel) -> int {
    if sp is Gray {
        1
    } else {
        g.planes@.len() as int
    }
}

/// The painting steps of one glyph.
pub open spec fn glyph_ops(g: PlacedGlyph, color: Bgra, sp: Subpixel) -> Seq<Paint> {
    Seq::new(
        planes_used(g, sp) as nat,
        |k: int|
            Paint::Glyph {
                plane: g.planes@[k],
                ox: g.dx + g.planes@[k].min_x,
                oy: g.dy + g.planes@[k].min_y,
                color,
                chan: plane_chan(sp, k),
            },
    )
}

/// The painting steps of a run of glyphs, in order.
pub open spec fn text_ops(gs: Seq<PlacedGlyph>, color: Bgra, sp: Subpixel) -> Seq<Paint>
    decreases gs.len(),
{
    if gs.len() == 0 {
        seq![]
    } else {
        text_ops(gs.drop_last(), color, sp) + glyph_ops(gs.last(), color, sp)
    }
}

/// A glyph `draw` can blend: the planes it uses exist and fit the
/// coordinate range.
pub open spec fn glyph_fits(g: PlacedGlyph, sp: Subpixel) -> bool {
    &&& (sp is Gray ==> g.planes@.len() >= 1)
    &&& (!(sp is Gray) ==> g.planes@.len() <= 3)
    &&& forall|k: int| 0 <= k < g.planes@.len() ==> plane_ok(#[trigger] g.planes@[k], g.dx as int, g.dy as int)
}

/// Every glyph of the run fits.
pub open spec fn text_fits(gs: Seq<PlacedGlyph>, sp: Subpixel) -> bool {
    forall|i: int| 0 <= i < gs.len() ==> glyph_fits(#[trigger] gs[i], sp)
}

/// Row `y` of the panel: transparent outside the rounded outline, the input
/// bar's or the list's background inside.
pub open spec fn panel_row_ops(w: u32, h: u32, r: u32, row_h: u32, colors: Colors, y: int) -> Seq<
    Paint,
> {
    let sp = span_spec(w, h, r, y as u32);
    let bg = if y < row_h {
        colors.bg_prompt
    } else {
        colors.bg_normal
    };
    (if sp.0 > 0 {
        seq![Paint::Fill { x: 0, y: y as u32, rw: sp.0 as u32, rh: 1, color: CLEAR }]
    } else {
        seq![]
    }) + seq![Paint::Fill { x: sp.0 as u32, y: y as u32, rw: (sp.1 - sp.0) as u32, rh: 1, color: bg }]
        + (if sp.1 < w {
        seq![Paint::Fill { x: sp.1 as u32, y: y as u32, rw: (w - sp.1) as u32, rh: 1, color: CLEAR }]
    } else {
        seq![]
    })
}

/// The panel's first `n` rows.
pub open spec fn panel_ops(w: u32, h: u32, r: u32, row_h: u32, colors: Colors, n: int) -> Seq<Paint>
    decreases n,
{
    if n <= 0 {
        seq![]
    } else {
        panel_ops(w, h, r, row_h, colors, n - 1) + panel_row_ops(w, h, r, row_h, colors, n - 1)
    }
}

/// The selection band over rows `[y, y + n)`, inside the rounded outline.
pub open spec fn band_ops(w: u32, h: u32, r: u32, color: Bgra, y: int, n: int) -> Seq<Paint>
    decreases n,
{
    if n <= 0 {
        seq![]
    } else {
        let sp = span_spec(w, h, r, (y + n - 1) as u32);
        band_ops(w, h, r, color, y, n - 1) + seq![
            Paint::Fill {
                x: sp.0 as u32,
                y: (y + n - 1) as u32,
                rw: (sp.1 - sp.0) as u32,
                rh: 1,
                color,
            },
        ]
    }
}

/// Every glyph step of a run of glyphs blends in `color`, and each glyph
/// gives as many steps as it has planes in use.
proof fn lemma_text_ops_color(gs: Seq<PlacedGlyph>, color: Bgra, sp: Subpixel)
    ensures
        forall|k: int|
            0 <= k < text_ops(gs, color, sp).len() ==> ((#[trigger] text_ops(gs, color, sp)[k]) matches Paint::Glyph { color: c, .. } && c == color),
        gs.len() > 0 && planes_used(gs.last(), sp) > 0 ==> text_ops(gs, color, sp).len() > 0,
    decreases gs.len(),
{
    if gs.len() > 0 {
        lemma_text_ops_color(gs.drop_last(), color, sp);
        let a = text_ops(gs.drop_last(), color, sp);
        let b = glyph_ops(gs.last(), color, sp);
        assert forall|k: int| 0 <= k < (a + b).len() implies ((#[trigger] (a + b)[k]) matches Paint::Glyph { color: c, .. } && c == color) by {
            if k < a.len() {
                assert((a + b)[k] == a[k]);
            } else {
                assert((a + b)[k] == b[k - a.len()]);
            }
        }
    }
}

proof fn lemma_band_ops_fill(w: u32, h: u32, r: u32, color: Bgra, y: int, n: int)
    ensures
        forall|k: int| 0 <= k < band_ops(w, h, r, color, y, n).len() ==> (#[trigger] band_ops(w, h, r, color, y, n)[k]) is Fill,
    decreases n,
{
    if n > 0 {
        lemma_band_ops_fill(w, h, r, color, y, n - 1);
        let a = band_ops(w, h, r, color, y, n - 1);
        let sp = span_spec(w, h, r, (y + n - 1) as u32);
        let b = seq![Paint::Fill { x: sp.0 as u32, y: (y + n - 1) as u32, rw: (sp.1 - sp.0) as u32, rh: 1, color }];
        assert forall|k: int| 0 <= k < (a + b).len() implies (#[trigger] (a + b)[k]) is Fill by {
            if k < a.len() {
                assert((a + b)[k] == a[k]);
            }
        }
    }
}

/// Law: the text of a highlighted row is painted in the selection foreground
/// (`-s`) and that of any other row in the normal foreground (`-n`): every
/// glyph step among a row's paint steps carries that colour, and a row with
/// text to draw has such steps.
pub proof fn row_text_uses_the_row_foreground(
    w: u32,
    h: u32,
    r: u32,
    t: TextLayout,
    selected: bool,
    colors: Colors,
    sp: Subpixel,
    i: int,
)
    ensures
        ({
            let ops = row_ops(w, h, r, t, selected, colors, sp, i);
            let fg = if selected {
                colors.fg_sel
            } else {
                colors.fg_normal
            };
            &&& forall|k: int|
                0 <= k < ops.len() ==> ((#[trigger] ops[k]) matches Paint::Glyph { color: c, .. } ==> c == fg)
            &&& (t.rows@[i]@.len() > 0 && planes_used(t.rows@[i]@.last(), sp) > 0 ==> exists|k: int|
                0 <= k < ops.len() && (#[trigger] ops[k]) is Glyph)
        }),
{
    let fg = if selected {
        colors.fg_sel
    } else {
        colors.fg_normal
    };
    let y = t.row_h * (i + 1);
    let end = if y + t.row_h < h {
        y + t.row_h
    } else {
        h as int
    };
    let band = if selected {
        band_ops(w, h, r, colors.bg_sel, y, end - y)
    } else {
        seq![]
    };
    let text = text_ops(t.rows@[i]@, fg, sp);
    let ops = row_ops(w, h, r, t, selected, colors, sp, i);
    assert(ops == band + text);
    lemma_text_ops_color(t.rows@[i]@, fg, sp);
    lemma_band_ops_fill(w, h, r, colors.bg_sel, y, end - y);
    assert forall|k: int| 0 <= k < ops.len() implies ((#[trigger] ops[k]) matches Paint::Glyph { color: c, .. } ==> c == fg) by {
        if k < band.len() {
            assert(ops[k] == band[k]);
            assert(band[k] is Fill);
        } else {
            assert(ops[k] == text[k - band.len()]);
        }
    }
    if t.rows@[i]@.len() > 0 && planes_used(t.rows@[i]@.last(), sp) > 0 {
        assert(text.len() > 0);
        assert(ops[band.len() as int] == text[0]);
        assert(ops[band.len() as int] is Glyph);
    }
}

/// Item row `i`: its selection band when highlighted, then its text.
pub open spec fn row_ops(
    w: u32,
    h: u32,
    r: u32,
    t: TextLayout,
    selected: bool,
    colors: Colors,
    sp: Subpixel,
    i: int,
) -> Seq<Paint> {
    let y = t.row_h * (i + 1);
    let end = if y + t.row_h < h {
        y + t.row_h
    } else {
        h as int
    };
    (if selected {
        band_ops(w, h, r, colors.bg_sel, y, end - y)
    } else {
        seq![]
    }) + text_ops(
        t.rows@[i]@,
        if selected {
            colors.fg_sel
        } else {
            colors.fg_normal
        },
        sp,
    )
}

/// The first `n` item rows.
pub open spec fn rows_ops(
    w: u32,
    h: u32,
    r: u32,
    t: TextLayout,
    sel: Seq<bool>,
    colors: Colors,
    sp: Subpixel,
    n: int,
) -> Seq<Paint>
    decreases n,
{
    if n <= 0 {
        seq![]
    } else {
        rows_ops(w, h, r, t, sel, colors, sp, n - 1) + row_ops(w, h, r, t, sel[n - 1], colors, sp, n - 1)
    }
}

/// The density factor: `scale`, at least 1.
pub open spec fn density(scale: u32) -> u32 {
    if scale > 1 {
        scale
    } else {
        1
    }
}

/// The prompt label: an accent rail on the bar's left padding, vertically
/// centered on the text line, then the label text.
pub open spec fn prompt_ops(t: TextLayout, padding: u32, colors: Colors, s: u32, sp: Subpixel) -> Seq<
    Paint,
> {
    let rail_h = t.line_h + 2 * (PILL_VPAD * s);
    seq![
        Paint::Fill {
            x: (padding * s) as u32,
            y: ((t.row_h - rail_h) / 2) as u32,
            rw: (LABEL_RAIL_W * s) as u32,
            rh: rail_h as u32,
            color: colors.label_accent,
        },
    ] + text_ops(t.prompt@, colors.fg_prompt, sp)
}

/// The caret: a bar two density pixels wide just past the typed input,
/// spanning the text line, kept inside the buffer.
pub open spec fn caret_ops(w: u32, t: TextLayout, colors: Colors, s: u32, visible: bool) -> Seq<Paint> {
    let cw = 2 * s;
    let cx = t.pen_x + s;
    let top = if t.caret_bottom >= t.line_h {
        t.caret_bottom - t.line_h
    } else {
        0
    };
    let lim = if w >= cw {
        w - cw
    } else {
        0
    };
    if visible && t.caret_bottom > 0 {
        seq![
            Paint::Fill {
                x: (if cx < lim {
                    cx
                } else {
                    lim
                }) as u32,
                y: top as u32,
                rw: cw as u32,
                rh: (t.caret_bottom - top) as u32,
                color: colors.fg_prompt,
            },
        ]
    } else {
        seq![]
    }
}

/// Everything `draw` paints, in order: the rounded panel, the prompt label
/// (when there is one), the typed input, the caret, then each item row.
pub open spec fn frame_ops(
    w: u32,
    h: u32,
    t: TextLayout,
    has_prompt: bool,
    sel: Seq<bool>,
    padding: u32,
    colors: Colors,
    scale: u32,
    caret_visible: bool,
    sp: Subpixel,
) -> Seq<Paint> {
    let s = density(scale);
    let corner = CORNER_RADIUS * s;
    let r = (if corner < h / 2 {
        corner
    } else {
        (h / 2) as int
    }) as u32;
    panel_ops(w, h, r, t.row_h, colors, h as int) + (if has_prompt {
        prompt_ops(t, padding, colors, s, sp)
    } else {
        seq![]
    }) + text_ops(t.query@, colors.fg_prompt, sp) + caret_ops(w, t, colors, s, caret_visible)
        + rows_ops(w, h, r, t, sel, colors, sp, sel.len() as int)
}

proof fn lemma_rows_ops_prefix(
    w: u32,
    h: u32,
    r: u32,
    t: TextLayout,
    sel: Seq<bool>,
    colors: Colors,
    sp: Subpixel,
    m: int,
    n: int,
)
    requires
        0 <= m <= n,
    ensures
        rows_ops(w, h, r, t, sel, colors, sp, m) =~= rows_ops(w, h, r, t, sel, colors, sp, n).take(
            rows_ops(w, h, r, t, sel, colors, sp, m).len() as int,
        ),
        rows_ops(w, h, r, t, sel, colors, sp, m).len() <= rows_ops(w, h, r, t, sel, colors, sp, n).len(),
    decreases n - m,
{
    if m < n {
        lemma_rows_ops_prefix(w, h, r, t, sel, colors, sp, m, n - 1);
        let a = rows_ops(w, h, r, t, sel, colors, sp, n - 1);
        let b = row_ops(w, h, r, t, sel[n - 1], colors, sp, n - 1);
        assert(rows_ops(w, h, r, t, sel, colors, sp, n) == a + b);
        let pm = rows_ops(w, h, r, t, sel, colors, sp, m);
        assert((a + b).take(pm.len() as int) =~= a.take(pm.len() as int));
    }
}

/// Law: a frame paints each item row with that row's own highlight: among
/// the frame's paint steps stands, for every row `i`, the run of steps of row
/// `i` drawn with the selection flag of `rows[i]` (so its text takes `-s` or
/// `-n` as `row_text_uses_the_row_foreground` says).
pub proof fn frame_paints_each_row_with_its_own_highlight(
    w: u32,
    h: u32,
    t: TextLayout,
    has_prompt: bool,
    sel: Seq<bool>,
    padding: u32,
    colors: Colors,
    scale: u32,
    caret_visible: bool,
    sp: Subpixel,
    i: int,
)
    requires
        0 <= i < sel.len(),
    ensures
        ({
            let ops = frame_ops(w, h, t, has_prompt, sel, padding, colors, scale, caret_visible, sp);
            exists|off: int, r: u32|
                0 <= off && off + row_ops(w, h, r, t, sel[i], colors, sp, i).len() <= ops.len()
                    && #[trigger] ops.subrange(
                    off,
                    off + row_ops(w, h, r, t, sel[i], colors, sp, i).len(),
                ) == row_ops(w, h, r, t, sel[i], colors, sp, i)
        }),
{
    let s = density(scale);
    let corner = CORNER_RADIUS * s;
    let r = (if corner < h / 2 {
        corner
    } else {
        (h / 2) as int
    }) as u32;
    let ops = frame_ops(w, h, t, has_prompt, sel, padding, colors, scale, caret_visible, sp);
    let n = sel.len() as int;
    let all_rows = rows_ops(w, h, r, t, sel, colors, sp, n);
    let head = panel_ops(w, h, r, t.row_h, colors, h as int) + (if has_prompt {
        prompt_ops(t, padding, colors, s, sp)
    } else {
        seq![]
    }) + text_ops(t.query@, colors.fg_prompt, sp) + caret_ops(w, t, colors, s, caret_visible);
    assert(ops == head + all_rows);
    let before = rows_ops(w, h, r, t, sel, colors, sp, i);
    let row = row_ops(w, h, r, t, sel[i], colors, sp, i);
    assert(rows_ops(w, h, r, t, sel, colors, sp, i + 1) == before + row);
    lemma_rows_ops_prefix(w, h, r, t, sel, colors, sp, i + 1, n);
    let upto = before + row;
    assert(all_rows.take(upto.len() as int) =~= upto);
    let off: int = (head.len() + before.len()) as int;
    let end: int = off + row.len() as int;
    assert(ops.subrange(off, end) =~= row) by {
        assert forall|k: int| 0 <= k < row.len() implies ops.subrange(off, end)[k] == row[k] by {
            assert(ops[off + k] == all_rows[before.len() + k]);
            assert(all_rows[before.len() + k] == all_rows.take(upto.len() as int)[before.len() + k]);
            assert(upto[before.len() + k] == row[k]);
        }
    }
}

/// Blend a run of glyphs.
fn paint_text(buf: &mut [u8], w: u32, h: u32, gs: &Vec<PlacedGlyph>, color: Bgra, sp: Subpixel)
    requires
        4 * (w * h) <= u32::MAX,
        old(buf)@.len() == 4 * (w * h),
        w <= i32::MAX,
        h <= i32::MAX,
        text_fits(gs@, sp),
    ensures
        final(buf)@.len() == old(buf)@.len(),
        shows(final(buf)@, w, h, apply_ops(image(old(buf)@, w), text_ops(gs@, color, sp))),
{
    let ghost start = buf@;
    assert(text_ops(gs@.take(0), color, sp) =~= seq![]);
    for i in 0..gs.len()
        invariant
            4 * (w * h) <= u32::MAX,
            buf@.len() == 4 * (w * h),
            w <= i32::MAX,
            h <= i32::MAX,
            text_fits(gs@, sp),
            shows(buf@, w, h, apply_ops(image(start, w), text_ops(gs@.take(i as int), color, sp))),
    {
        let g = &gs[i];
        assert(glyph_fits(gs@[i as int], sp));
        let n = match sp {
            Subpixel::Gray => 1,
            _ => g.planes.len(),
        };
        let ghost before = text_ops(gs@.take(i as int), color, sp);
        let ghost gops = glyph_ops(*g, color, sp);
        assert(before + gops.take(0) =~= before);
        for k in 0..n
            invariant
                4 * (w * h) <= u32::MAX,
                buf@.len() == 4 * (w * h),
                w <= i32::MAX,
                h <= i32::MAX,
                glyph_fits(*g, sp),
                n == planes_used(*g, sp),
                gops == glyph_ops(*g, color, sp),
                shows(buf@, w, h, apply_ops(image(start, w), before + gops.take(k as int))),
        {
            let chan = match sp {
                Subpixel::Gray => None,
                Subpixel::Rgb => Some(
                    if k == 0 {
                        2usize
                    } else if k == 1 {
                        1usize
                    } else {
                        0usize
                    },
                ),
                Subpixel::Bgr => Some(k),
            };
            assert(plane_ok(g.planes@[k as int], g.dx as int, g.dy as int));
            let ghost prev = buf@;
            paint_plane(buf, w, h, &g.planes[k], g.dx, g.dy, color, chan);
            proof {
                assert(gops[k as int] == Paint::Glyph {
                    plane: g.planes@[k as int],
                    ox: g.dx + g.planes@[k as int].min_x,
                    oy: g.dy + g.planes@[k as int].min_y,
                    color,
                    chan,
                });
                lemma_step(start, prev, buf@, w, h, before + gops.take(k as int), seq![gops[k as int]]);
                assert(before + gops.take(k as int) + seq![gops[k as int]] =~= before + gops.take(k + 1));
            }
        }
        proof {
            assert(gops.take(n as int) =~= gops);
            let t = gs@.take(i + 1);
            assert(t.drop_last() =~= gs@.take(i as int));
            assert(t.last() == *g);
        }
    }
    assert(gs@.take(gs@.len() as int) =~= gs@);
}

/// Paint the rounded panel row by row.
fn paint_panel(buf: &mut [u8], w: u32, h: u32, r: u32, row_h: u32, colors: &Colors)
    requires
        4 * (w * h) <= u32::MAX,
        old(buf)@.len() == 4 * (w * h),
        eff_radius(w, h, r) <= 0xffff,
    ensures
        final(buf)@.len() == old(buf)@.len(),
        shows(final(buf)@, w, h, apply_ops(image(old(buf)@, w), panel_ops(w, h, r, row_h, *colors, h as int))),
{
    let ghost start = buf@;
    for y in 0..h
        invariant
            4 * (w * h) <= u32::MAX,
            buf@.len() == 4 * (w * h),
            eff_radius(w, h, r) <= 0xffff,
            shows(buf@, w, h, apply_ops(image(start, w), panel_ops(w, h, r, row_h, *colors, y as int))),
    {
        let (x0, x1) = rounded_span(w, h, r, y);
        let bg = if y < row_h {
            colors.bg_prompt
        } else {
            colors.bg_normal
        };
        let ghost done = panel_ops(w, h, r, row_h, *colors, y as int);
        let ghost a: Seq<Paint> = if x0 > 0 {
            seq![Paint::Fill { x: 0, y, rw: x0, rh: 1, color: CLEAR }]
        } else {
            seq![]
        };
        let ghost b = seq![Paint::Fill { x: x0, y, rw: (x1 - x0) as u32, rh: 1, color: bg }];
        let ghost c: Seq<Paint> = if x1 < w {
            seq![Paint::Fill { x: x1, y, rw: (w - x1) as u32, rh: 1, color: CLEAR }]
        } else {
            seq![]
        };
        if x0 > 0 {
            let ghost prev = buf@;
            fill_span(buf, w, h, y, 0, x0, CLEAR);
            proof {
                lemma_step(start, prev, buf@, w, h, done, a);
            }
        } else {
            assert(done + a =~= done);
        }
        let ghost prev = buf@;
        fill_span(buf, w, h, y, x0, x1, bg);
        proof {
            lemma_step(start, prev, buf@, w, h, done + a, b);
        }
        if x1 < w {
            let ghost prev = buf@;
            fill_span(buf, w, h, y, x1, w, CLEAR);
            proof {
                lemma_step(start, prev, buf@, w, h, done + a + b, c);
            }
        } else {
            assert(done + a + b + c =~= done + a + b);
        }
        proof {
            assert(panel_row_ops(w, h, r, row_h, *colors, y as int) == a + b + c);
            assert(done + a + b + c =~= done + (a + b + c));
        }
    }
}

/// The selection band over rows `[y, end)`.
fn paint_band(buf: &mut [u8], w: u32, h: u32, r: u32, color: Bgra, y: u32, end: u32)
    requires
        4 * (w * h) <= u32::MAX,
        old(buf)@.len() == 4 * (w * h),
        eff_radius(w, h, r) <= 0xffff,
        end <= h,
    ensures
        final(buf)@.len() == old(buf)@.len(),
        shows(final(buf)@, w, h, apply_ops(image(old(buf)@, w), band_ops(w, h, r, color, y as int, end - y))),
{
    let ghost start = buf@;
    if y >= end {
        assert(band_ops(w, h, r, color, y as int, end - y) =~= seq![]);
        assert forall|x: int, yy: int, c: int| 0 <= x < w && 0 <= yy < h && 0 <= c < 4 implies #[trigger] buf@[at(
            w,
            x,
            yy,
            c,
        )] == apply_ops(image(start, w), band_ops(w, h, r, color, y as int, end - y))(x, yy, c) by {}
        return;
    }
    let mut yy = y;
    while yy < end
        invariant
            4 * (w * h) <= u32::MAX,
            buf@.len() == 4 * (w * h),
            eff_radius(w, h, r) <= 0xffff,
            y <= yy <= end <= h,
            shows(buf@, w, h, apply_ops(image(start, w), band_ops(w, h, r, color, y as int, yy - y))),
        decreases end - yy,
    {
        let (x0, x1) = rounded_span(w, h, r, yy);
        let ghost prev = buf@;
        fill_span(buf, w, h, yy, x0, x1, color);
        proof {
            lemma_step(
                start,
                prev,
                buf@,
                w,
                h,
                band_ops(w, h, r, color, y as int, yy - y),
                seq![Paint::Fill { x: x0, y: yy, rw: (x1 - x0) as u32, rh: 1, color }],
            );
            assert(band_ops(w, h, r, color, y as int, yy + 1 - y) == band_ops(
                w,
                h,
                r,
                color,
                y as int,
                yy - y,
            ) + seq![Paint::Fill { x: x0, y: yy, rw: (x1 - x0) as u32, rh: 1, color }]);
        }
        yy += 1;
    }
}

proof fn lemma_small_sides(w: u32, h: u32)
    requires
        1 <= w,
        1 <= h,
        4 * (w * h) <= u32::MAX,
    ensures
        w <= i32::MAX,
        h <= i32::MAX,
        w / 2 <= 0xffff || h / 2 <= 0xffff,
{
    assert(w <= w * h && h <= w * h) by (nonlinear_arith)
        requires
            1 <= w,
            1 <= h,
    ;
    if w / 2 > 0xffff && h / 2 > 0xffff {
        assert(w * h >= 0x20000 * 0x20000) by (nonlinear_arith)
            requires
                w >= 0x20000,
                h >= 0x20000,
        ;
    }
}

/// Draws the full frame into `buf` (`w * h` pixels, BGRA). The first row is
/// the prompt/input row, the rest are `rows`, whose text `text.rows` holds.
/// `scale` is the buffer-to-logical density (HiDPI): `padding` and the
/// geometry constants are logical and are multiplied by it here.
pub fn draw(
    buf: &mut [u8],
    w: u32,
    h: u32,
    text: &TextLayout,
    prompt: &str,
    rows: &[Row],
    padding: u32,
    colors: &Colors,
    scale: u32,
    caret_visible: bool,
    subpixel: Subpixel,
)
    requires
        old(buf)@.len() == 4 * (w * h),
        4 * (w * h) <= u32::MAX,
        padding * density(scale) <= u32::MAX,
        CORNER_RADIUS * density(scale) <= u32::MAX,
        text.pen_x + density(scale) <= u32::MAX,
        prompt@.len() > 0 ==> text.line_h + 2 * (PILL_VPAD * density(scale)) <= text.row_h,
        prompt@.len() > 0 ==> padding * density(scale) + LABEL_RAIL_W * density(scale) <= u32::MAX,
        prompt@.len() > 0 ==> text_fits(text.prompt@, subpixel),
        text_fits(text.query@, subpixel),
        rows@.len() == text.rows@.len(),
        rows@.len() < u32::MAX,
        text.row_h * (rows@.len() + 1) <= u32::MAX,
        forall|i: int| 0 <= i < rows@.len() ==> text_fits(#[trigger] text.rows@[i]@, subpixel),
    ensures
        final(buf)@.len() == old(buf)@.len(),
        shows(
            final(buf)@,
            w,
            h,
            apply_ops(
                image(old(buf)@, w),
                frame_ops(
                    w,
                    h,
                    *text,
                    prompt@.len() > 0,
                    rows@.map_values(|r: Row| r.selected),
                    padding,
                    *colors,
                    scale,
                    caret_visible,
                    subpixel,
                ),
            ),
        ),
{
    if w == 0 || h == 0 {
        return;
    }
    proof {
        lemma_small_sides(w, h);
    }
    let ghost start = buf@;
    let ghost sel = rows@.map_values(|r: Row| r.selected);
    let s = if scale > 1 {
        scale
    } else {
        1
    };
    let p = padding * s;
    let corner = CORNER_RADIUS * s;
    let rail_w = LABEL_RAIL_W * s;
    let vpad = PILL_VPAD * s;
    let r = if corner < h / 2 {
        corner
    } else {
        h / 2
    };
    let row_h = text.row_h;
    paint_panel(buf, w, h, r, row_h, colors);
    let ghost done = panel_ops(w, h, r, row_h, *colors, h as int);
    if !prompt.is_empty() {
        let rail_h = text.line_h + 2 * vpad;
        let rail_y = (row_h - rail_h) / 2;
        let ghost prev = buf@;
        fill_rect(buf, w, h, p, rail_y, rail_w, rail_h, colors.label_accent);
        let ghost rail = seq![
            Paint::Fill { x: p, y: rail_y, rw: rail_w, rh: rail_h, color: colors.label_accent },
        ];
        proof {
            lemma_step(start, prev, buf@, w, h, done, rail);
        }
        let ghost prev = buf@;
        paint_text(buf, w, h, &text.prompt, colors.fg_prompt, subpixel);
        proof {
            lemma_step(start, prev, buf@, w, h, done + rail, text_ops(text.prompt@, colors.fg_prompt, subpixel));
            assert(prompt_ops(*text, padding, *colors, s, subpixel) == rail + text_ops(text.prompt@, colors.fg_prompt, subpixel));
            assert(done + rail + text_ops(text.prompt@, colors.fg_prompt, subpixel) =~= done + prompt_ops(*text, padding, *colors, s, subpixel));
        }
    } else {
        assert(done + seq![] =~= done);
    }
    let ghost done = done + (if prompt@.len() > 0 {
        prompt_ops(*text, padding, *colors, s, subpixel)
    } else {
        seq![]
    });
    let ghost prev = buf@;
    paint_text(buf, w, h, &text.query, colors.fg_prompt, subpixel);
    proof {
        lemma_step(start, prev, buf@, w, h, done, text_ops(text.query@, colors.fg_prompt, subpixel));
    }
    let ghost done = done + text_ops(text.query@, colors.fg_prompt, subpixel);
    let caret_w = 2 * s;
    let caret_x = text.pen_x + s;
    let caret_bottom = text.caret_bottom;
    if caret_visible && caret_bottom > 0 {
        let caret_top = if caret_bottom >= text.line_h {
            caret_bottom - text.line_h
        } else {
            0
        };
        let lim = if w >= caret_w {
            w - caret_w
        } else {
            0
        };
        let x = if caret_x < lim {
            caret_x
        } else {
            lim
        };
        let ghost prev = buf@;
        fill_rect(buf, w, h, x, caret_top, caret_w, caret_bottom - caret_top, colors.fg_prompt);
        proof {
            lemma_step(start, prev, buf@, w, h, done, caret_ops(w, *text, *colors, s, caret_visible));
        }
    } else {
        assert(done + caret_ops(w, *text, *colors, s, caret_visible) =~= done);
    }
    let ghost done = done + caret_ops(w, *text, *colors, s, caret_visible);
    assert(rows_ops(w, h, r, *text, sel, *colors, subpixel, 0) =~= seq![]);
    assert(done + rows_ops(w, h, r, *text, sel, *colors, subpixel, 0) =~= done);
    for i in 0..rows.len()
        invariant
            4 * (w * h) <= u32::MAX,
            buf@.len() == 4 * (w * h),
            w <= i32::MAX,
            h <= i32::MAX,
            eff_radius(w, h, r) <= 0xffff,
            row_h == text.row_h,
            sel == rows@.map_values(|r: Row| r.selected),
            rows@.len() == text.rows@.len(),
            rows@.len() < u32::MAX,
            text.row_h * (rows@.len() + 1) <= u32::MAX,
            forall|j: int| 0 <= j < rows@.len() ==> text_fits(#[trigger] text.rows@[j]@, subpixel),
            shows(buf@, w, h, apply_ops(image(start, w), done + rows_ops(w, h, r, *text, sel, *colors, subpixel, i as int))),
    {
        proof {
            assert(row_h * (i + 1) <= row_h * (rows@.len() + 1) - row_h) by (nonlinear_arith)
                requires
                    i < rows@.len(),
            ;
        }
        let y = row_h * (i as u32 + 1);
        let selected = rows[i].selected;
        assert(sel[i as int] == selected);
        let ghost base = done + rows_ops(w, h, r, *text, sel, *colors, subpixel, i as int);
        let end = if y + row_h < h {
            y + row_h
        } else {
            h
        };
        let ghost band: Seq<Paint> = if selected {
            band_ops(w, h, r, colors.bg_sel, y as int, end - y)
        } else {
            seq![]
        };
        if selected {
            let ghost prev = buf@;
            paint_band(buf, w, h, r, colors.bg_sel, y, end);
            proof {
                lemma_step(start, prev, buf@, w, h, base, band);
            }
        } else {
            assert(base + band =~= base);
        }
        let fg = if selected {
            colors.fg_sel
        } else {
            colors.fg_normal
        };
        let ghost prev = buf@;
        paint_text(buf, w, h, &text.rows[i], fg, subpixel);
        proof {
            lemma_step(start, prev, buf@, w, h, base + band, text_ops(text.rows@[i as int]@, fg, subpixel));
            assert(row_ops(w, h, r, *text, selected, *colors, subpixel, i as int) == band + text_ops(text.rows@[i as int]@, fg, subpixel));
            assert(base + band + text_ops(text.rows@[i as int]@, fg, subpixel) =~= done + rows_ops(w, h, r, *text, sel, *colors, subpixel, i + 1));
        }
    }
    proof {
        assert(sel.len() == rows@.len());
        assert(done + rows_ops(w, h, r, *text, sel, *colors, subpixel, sel.len() as int) =~= frame_ops(
            w,
            h,
            *text,
            prompt@.len() > 0,
            sel,
            padding,
            *colors,
            scale,
            caret_visible,
            subpixel,
        ));
    }
}

/// Every number has an integer square root.
proof fn lemma_isqrt_exists(n: nat)
    ensures
        is_isqrt(n as int, isqrt(n) as int),
    decreases n,
{
    if n == 0 {
        assert(is_isqrt(0, 0));
    } else {
        lemma_isqrt_exists((n - 1) as nat);
        let s = isqrt((n - 1) as nat);
        if (s + 1) * (s + 1) <= n {
            assert(n < (s + 2) * (s + 2)) by (nonlinear_arith)
                requires
                    n - 1 < (s + 1) * (s + 1),
                    s >= 0,
            ;
            assert(is_isqrt(n as int, s + 1 as int));
            lemma_isqrt_unique(n, (s + 1) as nat);
        } else {
            assert(is_isqrt(n as int, s as int));
            lemma_isqrt_unique(n, s);
        }
    }
}

/// The span of a panel row lies within the row, left end first.
pub proof fn span_within_row(w: u32, h: u32, r: u32, y: u32)
    ensures
        0 <= span_spec(w, h, r, y).0 <= span_spec(w, h, r, y).1 <= w,
{
    let re = eff_radius(w, h, r);
    if re > 0 {
        let k = 2 * y + 1;
        let top2 = 2 * re;
        let bottom2 = 2 * h - 2 * re;
        if !(top2 <= k && k <= bottom2) {
            let d = if k < top2 {
                top2 - k
            } else {
                k - bottom2
            };
            if d < 2 * re {
                let m = 4 * re * re - d * d;
                assert(m >= 0) by (nonlinear_arith)
                    requires
                        0 <= d < 2 * re,
                        m == 4 * re * re - d * d,
                ;
                lemma_isqrt_exists(m as nat);
                let q = isqrt(m as nat);
                assert(q <= 2 * re) by (nonlinear_arith)
                    requires
                        q * q <= m,
                        m <= 4 * re * re,
                        q >= 0,
                        re >= 0,
                ;
            }
        }
    }
}

/// The color of pixel `(x, y)` once the panel is painted: the row's
/// background inside the rounded outline, transparent outside.
pub open spec fn panel_px(w: u32, h: u32, r: u32, row_h: u32, colors: Colors, x: int, y: int) -> Bgra {
    let sp = span_spec(w, h, r, y as u32);
    if sp.0 <= x < sp.1 {
        if y < row_h {
            colors.bg_prompt
        } else {
            colors.bg_normal
        }
    } else {
        CLEAR
    }
}

proof fn lemma_panel_row(
    f: spec_fn(int, int, int) -> u8,
    w: u32,
    h: u32,
    r: u32,
    row_h: u32,
    colors: Colors,
    y: int,
    x: int,
    yy: int,
    c: int,
)
    requires
        0 <= y < h,
        0 <= x < w,
        0 <= yy < h,
        0 <= c < 4,
    ensures
        yy == y ==> apply_ops(f, panel_row_ops(w, h, r, row_h, colors, y))(x, yy, c) == panel_px(
            w,
            h,
            r,
            row_h,
            colors,
            x,
            yy,
        )[c],
        yy != y ==> apply_ops(f, panel_row_ops(w, h, r, row_h, colors, y))(x, yy, c) == f(x, yy, c),
{
    let sp = span_spec(w, h, r, y as u32);
    span_within_row(w, h, r, y as u32);
    let bg = if y < row_h {
        colors.bg_prompt
    } else {
        colors.bg_normal
    };
    let a: Seq<Paint> = if sp.0 > 0 {
        seq![Paint::Fill { x: 0, y: y as u32, rw: sp.0 as u32, rh: 1, color: CLEAR }]
    } else {
        seq![]
    };
    let bop = Paint::Fill { x: sp.0 as u32, y: y as u32, rw: (sp.1 - sp.0) as u32, rh: 1, color: bg };
    let b = seq![bop];
    let cc: Seq<Paint> = if sp.1 < w {
        seq![Paint::Fill { x: sp.1 as u32, y: y as u32, rw: (w - sp.1) as u32, rh: 1, color: CLEAR }]
    } else {
        seq![]
    };
    assert(panel_row_ops(w, h, r, row_h, colors, y) == a + b + cc);
    apply_ops_append(f, a + b, cc);
    apply_ops_append(f, a, b);
    let fa = apply_ops(f, a);
    let fb = apply_ops(fa, b);
    let fc = apply_ops(fb, cc);
    if sp.0 > 0 {
        lemma_one_op(f, a[0]);
        assert(a =~= seq![a[0]]);
    } else {
        assert(fa == f);
    }
    lemma_one_op(fa, bop);
    if sp.1 < w {
        lemma_one_op(fb, cc[0]);
        assert(cc =~= seq![cc[0]]);
    } else {
        assert(fc == fb);
    }
}

proof fn lemma_panel_ops(
    f: spec_fn(int, int, int) -> u8,
    w: u32,
    h: u32,
    r: u32,
    row_h: u32,
    colors: Colors,
    n: int,
    x: int,
    y: int,
    c: int,
)
    requires
        0 <= n <= h,
        0 <= x < w,
        0 <= y < h,
        0 <= c < 4,
    ensures
        y < n ==> apply_ops(f, panel_ops(w, h, r, row_h, colors, n))(x, y, c) == panel_px(
            w,
            h,
            r,
            row_h,
            colors,
            x,
            y,
        )[c],
        y >= n ==> apply_ops(f, panel_ops(w, h, r, row_h, colors, n))(x, y, c) == f(x, y, c),
    decreases n,
{
    if n > 0 {
        let prev = panel_ops(w, h, r, row_h, colors, n - 1);
        let row = panel_row_ops(w, h, r, row_h, colors, n - 1);
        lemma_panel_ops(f, w, h, r, row_h, colors, n - 1, x, y, c);
        apply_ops_append(f, prev, row);
        lemma_panel_row(apply_ops(f, prev), w, h, r, row_h, colors, n - 1, x, y, c);
    } else {
        assert(panel_ops(w, h, r, row_h, colors, n) =~= seq![]);
    }
}

/// Law: the panel pass paints every pixel of the buffer, whatever it held:
/// inside the rounded outline with the row's background (the input bar's
/// for the first row), outside it transparent.
pub proof fn panel_paints_every_pixel(
    f: spec_fn(int, int, int) -> u8,
    w: u32,
    h: u32,
    r: u32,
    row_h: u32,
    colors: Colors,
    x: int,
    y: int,
    c: int,
)
    requires
        0 <= x < w,
        0 <= y < h,
        0 <= c < 4,
    ensures
        apply_ops(f, panel_ops(w, h, r, row_h, colors, h as int))(x, y, c) == panel_px(
            w,
            h,
            r,
            row_h,
            colors,
            x,
            y,
        )[c],
{
    lemma_panel_ops(f, w, h, r, row_h, colors, h as int, x, y, c);
}

/// Law: a frame does not depend on what the buffer held before (buffers
/// are reused slot by slot), since its first pass paints every pixel.
pub proof fn frame_ignores_previous_contents(
    f: spec_fn(int, int, int) -> u8,
    g: spec_fn(int, int, int) -> u8,
    w: u32,
    h: u32,
    t: TextLayout,
    has_prompt: bool,
    sel: Seq<bool>,
    padding: u32,
    colors: Colors,
    scale: u32,
    caret_visible: bool,
    sp: Subpixel,
    x: int,
    y: int,
    c: int,
)
    requires
        0 <= x < w,
        0 <= y < h,
        0 <= c < 4,
    ensures
        apply_ops(f, frame_ops(w, h, t, has_prompt, sel, padding, colors, scale, caret_visible, sp))(
            x,
            y,
            c,
        ) == apply_ops(
            g,
            frame_ops(w, h, t, has_prompt, sel, padding, colors, scale, caret_visible, sp),
        )(x, y, c),
{
    let s = density(scale);
    let corner = CORNER_RADIUS * s;
    let r = (if corner < h / 2 {
        corner
    } else {
        (h / 2) as int
    }) as u32;
    let p = panel_ops(w, h, r, t.row_h, colors, h as int);
    let rest = (if has_prompt {
        prompt_ops(t, padding, colors, s, sp)
    } else {
        seq![]
    }) + text_ops(t.query@, colors.fg_prompt, sp) + caret_ops(w, t, colors, s, caret_visible)
        + rows_ops(w, h, r, t, sel, colors, sp, sel.len() as int);
    assert(frame_ops(w, h, t, has_prompt, sel, padding, colors, scale, caret_visible, sp) =~= p + rest);
    apply_ops_append(f, p, rest);
    apply_ops_append(g, p, rest);
    panel_paints_every_pixel(f, w, h, r, t.row_h, colors, x, y, c);
    panel_paints_every_pixel(g, w, h, r, t.row_h, colors, x, y, c);
    lemma_apply_ops_local(apply_ops(f, p), apply_ops(g, p), rest, x, y, c);
}

} // verus!
