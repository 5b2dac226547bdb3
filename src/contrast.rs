//! The label colour for a swatch: a light or dark tint of the background's
//! hue, chosen for contrast. All colour arithmetic is exact, on rationals
//! scaled to integers.
use vstd::prelude::*;
use vstd::arithmetic::div_mod::lemma_fundamental_div_mod;

verus! {

// Tuning table of the label choice. Lightness and luminance are in
// thousandths, hues in degrees.
/// HSL lightness of the light label tint.
pub const LIGHT_LABEL_LIGHTNESS: i64 = 775;
/// HSL lightness of the dark label tint.
pub const DARK_LABEL_LIGHTNESS: i64 = 280;
/// A background darker than this luminance may count as visually dark.
pub const DARK_LUMINANCE_LIMIT: i64 = 620;
/// Saturation times lightness above this (in thousandths) counts as colourful.
pub const COLOURFUL_LIMIT: i64 = 100;
// Hue bands where dark labels read poorly even on a dark background:
// yellow and chartreuse, greens and teals, purples and magentas.
pub const YELLOW_HUE_FROM: i64 = 36;
pub const YELLOW_HUE_TO: i64 = 80;
pub const GREEN_HUE_FROM: i64 = 90;
pub const GREEN_HUE_TO: i64 = 185;
pub const PURPLE_HUE_FROM: i64 = 300;
pub const PURPLE_HUE_TO: i64 = 340;

/// The largest channel.
pub open spec fn hi(c: (u8, u8, u8)) -> int {
    if c.0 >= c.1 && c.0 >= c.2 {
        c.0 as int
    } else if c.1 >= c.2 {
        c.1 as int
    } else {
        c.2 as int
    }
}

/// The smallest channel.
pub open spec fn lo(c: (u8, u8, u8)) -> int {
    if c.0 <= c.1 && c.0 <= c.2 {
        c.0 as int
    } else if c.1 <= c.2 {
        c.1 as int
    } else {
        c.2 as int
    }
}

/// HSL chroma in channel units (0 to 255).
pub open spec fn spread(c: (u8, u8, u8)) -> int {
    hi(c) - lo(c)
}

/// Twice the HSL lightness in channel units (0 to 510).
pub open spec fn total(c: (u8, u8, u8)) -> int {
    hi(c) + lo(c)
}

/// HSL saturation is `spread(c) / sat_den(c)`; a gray gets 1, so that its
/// saturation is 0.
pub open spec fn sat_den(c: (u8, u8, u8)) -> int {
    if spread(c) == 0 {
        1
    } else if total(c) <= 255 {
        total(c)
    } else {
        510 - total(c)
    }
}

/// HSL hue in degrees, in [0, 360), times `spread(c)`; 0 for a gray.
pub open spec fn hue_scaled(c: (u8, u8, u8)) -> int {
    let d = spread(c);
    let (r, g, b) = (c.0 as int, c.1 as int, c.2 as int);
    let raw = if d == 0 {
        0
    } else if r == hi(c) {
        60 * (g - b)
    } else if g == hi(c) {
        60 * (b - r) + 120 * d
    } else {
        60 * (r - g) + 240 * d
    };
    if raw < 0 {
        raw + 360 * d
    } else {
        raw
    }
}

/// The hue lies in one of the bands where dark labels read poorly.
pub open spec fn hue_prefers_light(c: (u8, u8, u8)) -> bool {
    let d = spread(c);
    let h = hue_scaled(c);
    d > 0 && ((YELLOW_HUE_FROM * d <= h <= YELLOW_HUE_TO * d) || (GREEN_HUE_FROM * d <= h
        <= GREEN_HUE_TO * d) || (PURPLE_HUE_FROM * d <= h <= PURPLE_HUE_TO * d))
}

/// Luminance `0.299 R + 0.587 G + 0.114 B` of the colour, times 255000.
pub open spec fn luma(c: (u8, u8, u8)) -> int {
    299 * c.0 + 587 * c.1 + 114 * c.2
}

/// Dark by luminance and colourful by saturation times lightness.
pub open spec fn visually_dark(c: (u8, u8, u8)) -> bool {
    luma(c) < DARK_LUMINANCE_LIMIT * 255 && 1000 * spread(c) * total(c) > COLOURFUL_LIMIT * 510
        * sat_den(c)
}

/// `1 - |2L - 1|` for a lightness `lt` in thousandths, in thousandths.
pub open spec fn chroma_room(lt: int) -> int {
    if 2 * lt >= 1000 {
        2000 - 2 * lt
    } else {
        2 * lt
    }
}

/// One channel of the tint with the hue of `c`, half its saturation and
/// lightness `lt` thousandths, times `4000 * sat_den(c)`; `x` is the
/// background's value of that channel.
pub open spec fn tint_scaled(c: (u8, u8, u8), x: int, lt: int) -> int {
    let k = chroma_room(lt);
    4 * lt * sat_den(c) - k * spread(c) + 2 * k * (x - lo(c))
}

/// A scaled channel rounded to the nearest 8-bit value, halves up.
pub open spec fn to_channel(n: int, den: int) -> int {
    (510 * n + 4000 * den) / (8000 * den)
}

/// The tint with the hue of `c`, half its saturation and lightness `lt`
/// thousandths, in 8-bit channels.
pub open spec fn tint(c: (u8, u8, u8), lt: int) -> (u8, u8, u8) {
    let den = sat_den(c);
    (
        to_channel(tint_scaled(c, c.0 as int, lt), den) as u8,
        to_channel(tint_scaled(c, c.1 as int, lt), den) as u8,
        to_channel(tint_scaled(c, c.2 as int, lt), den) as u8,
    )
}

/// Luminance of the tint, times `4000000 * sat_den(c)`.
pub open spec fn tint_luma(c: (u8, u8, u8), lt: int) -> int {
    299 * tint_scaled(c, c.0 as int, lt) + 587 * tint_scaled(c, c.1 as int, lt) + 114
        * tint_scaled(c, c.2 as int, lt)
}

/// How far the tint's luminance is from the background's, on a common scale.
pub open spec fn luma_gap(c: (u8, u8, u8), lt: int) -> int {
    let diff = 255 * tint_luma(c, lt) - 4000 * sat_den(c) * luma(c);
    if diff < 0 {
        -diff
    } else {
        diff
    }
}

/// The light tint is chosen: forced by a dark, colourful background in a
/// light-preferring hue band, or else strictly farther in luminance.
pub open spec fn prefers_light_label(c: (u8, u8, u8)) -> bool {
    (visually_dark(c) && hue_prefers_light(c)) || luma_gap(c, LIGHT_LABEL_LIGHTNESS as int)
        > luma_gap(c, DARK_LABEL_LIGHTNESS as int)
}

/// The label colour for a background.
pub open spec fn label_color(c: (u8, u8, u8)) -> (u8, u8, u8) {
    if prefers_light_label(c) {
        tint(c, LIGHT_LABEL_LIGHTNESS as int)
    } else {
        tint(c, DARK_LABEL_LIGHTNESS as int)
    }
}

pub(crate) proof fn lemma_channel_facts(c: (u8, u8, u8))
    ensures
        0 <= lo(c) <= c.0 <= hi(c) <= 255,
        lo(c) <= c.1 <= hi(c),
        lo(c) <= c.2 <= hi(c),
        1 <= sat_den(c) <= 255,
        spread(c) <= sat_den(c),
        spread(c) == 0 || spread(c) > 0,
{
}

pub(crate) fn channel_stats(c: (u8, u8, u8)) -> (r: (i64, i64, i64))
    ensures
        r.0 == lo(c),
        r.1 == spread(c),
        r.2 == sat_den(c),
{
    let (r, g, b) = (c.0 as i64, c.1 as i64, c.2 as i64);
    let h = if r >= g && r >= b {
        r
    } else if g >= b {
        g
    } else {
        b
    };
    let l = if r <= g && r <= b {
        r
    } else if g <= b {
        g
    } else {
        b
    };
    let d = h - l;
    let den = if d == 0 {
        1
    } else if h + l <= 255 {
        h + l
    } else {
        510 - (h + l)
    };
    (l, d, den)
}

fn scaled_channel(c: (u8, u8, u8), x: u8, lt: i64, stats: (i64, i64, i64)) -> (n: i64)
    requires
        0 <= lt <= 1000,
        stats.0 == lo(c),
        stats.1 == spread(c),
        stats.2 == sat_den(c),
        lo(c) <= x <= hi(c),
    ensures
        n == tint_scaled(c, x as int, lt as int),
        0 <= n <= 4000 * sat_den(c),
{
    proof {
        lemma_channel_facts(c);
    }
    let (l, d, den) = stats;
    let k: i64 = if 2 * lt >= 1000 {
        2000 - 2 * lt
    } else {
        2 * lt
    };
    let t = x as i64 - l;
    assert(0 <= t <= d);
    assert(0 <= 4 * lt * den <= 4000 * 255) by (nonlinear_arith)
        requires
            0 <= lt <= 1000,
            1 <= den <= 255,
    ;
    assert(0 <= k * d <= 2000 * 255) by (nonlinear_arith)
        requires
            0 <= k <= 2000,
            0 <= d <= 255,
    ;
    proof {
        lemma_tint_scaled_range(c, x as int, lt as int);
    }
    let base = 4 * lt * den;
    let kd = k * d;
    let k2 = 2 * k;
    assert(0 <= k2 * t <= k2 * d) by (nonlinear_arith)
        requires
            0 <= k2 <= 4000,
            0 <= t <= d,
    ;
    assert(k2 * d == 2 * kd) by (nonlinear_arith)
        requires
            k2 == 2 * k,
            kd == k * d,
    ;
    let kt = k2 * t;
    assert(kt == 2 * k * t) by (nonlinear_arith)
        requires
            k2 == 2 * k,
            kt == k2 * t,
    ;
    assert(k == chroma_room(lt as int));
    base - kd + kt
}

fn round_channel(n: i64, den: i64) -> (r: u8)
    requires
        1 <= den <= 255,
        0 <= n <= 4000 * den,
    ensures
        r == to_channel(n as int, den as int),
{
    let num = 510 * n + 4000 * den;
    let q = num / (8000 * den);
    proof {
        lemma_to_channel_range(n as int, den as int);
    }
    q as u8
}

/// The tint of `bg` with the same hue, half its saturation and lightness
/// `lightness` thousandths, in 8-bit channels.
pub fn label_candidate(bg: (u8, u8, u8), lightness: i64) -> (r: (u8, u8, u8))
    requires
        0 <= lightness <= 1000,
    ensures
        r == tint(bg, lightness as int),
{
    proof {
        lemma_channel_facts(bg);
    }
    let stats = channel_stats(bg);
    let (_, _, den) = stats;
    let r = round_channel(scaled_channel(bg, bg.0, lightness, stats), den);
    let g = round_channel(scaled_channel(bg, bg.1, lightness, stats), den);
    let b = round_channel(scaled_channel(bg, bg.2, lightness, stats), den);
    (r, g, b)
}

fn hue_test(c: (u8, u8, u8), stats: (i64, i64, i64)) -> (r: bool)
    requires
        stats.0 == lo(c),
        stats.1 == spread(c),
    ensures
        r == hue_prefers_light(c),
{
    let (r, g, b) = (c.0 as i64, c.1 as i64, c.2 as i64);
    let (_, d, _) = stats;
    if d == 0 {
        return false;
    }
    let h = if r >= g && r >= b {
        r
    } else if g >= b {
        g
    } else {
        b
    };
    let raw = if r == h {
        60 * (g - b)
    } else if g == h {
        60 * (b - r) + 120 * d
    } else {
        60 * (r - g) + 240 * d
    };
    let hue = if raw < 0 {
        raw + 360 * d
    } else {
        raw
    };
    (YELLOW_HUE_FROM * d <= hue && hue <= YELLOW_HUE_TO * d) || (GREEN_HUE_FROM * d <= hue && hue
        <= GREEN_HUE_TO * d) || (PURPLE_HUE_FROM * d <= hue && hue <= PURPLE_HUE_TO * d)
}

fn tint_gap(c: (u8, u8, u8), lt: i64, stats: (i64, i64, i64), bg_luma: i64) -> (r: i64)
    requires
        0 <= lt <= 1000,
        stats.0 == lo(c),
        stats.1 == spread(c),
        stats.2 == sat_den(c),
        bg_luma == luma(c),
    ensures
        r == luma_gap(c, lt as int),
{
    proof {
        lemma_channel_facts(c);
    }
    let nr = scaled_channel(c, c.0, lt, stats);
    let ng = scaled_channel(c, c.1, lt, stats);
    let nb = scaled_channel(c, c.2, lt, stats);
    let den = stats.2;
    assert(0 <= 4000 * den * bg_luma <= 4000 * 255 * 255000) by (nonlinear_arith)
        requires
            1 <= den <= 255,
            0 <= bg_luma <= 255000,
    ;
    let diff = 255 * (299 * nr + 587 * ng + 114 * nb) - 4000 * den * bg_luma;
    if diff < 0 {
        -diff
    } else {
        diff
    }
}

/// The label colour for text on background `bg`: a tint of the background's
/// hue at half its saturation, light or dark, whichever reads better.
pub fn pick_label_color(bg: (u8, u8, u8)) -> (r: (u8, u8, u8))
    ensures
        r == label_color(bg),
{
    proof {
        lemma_channel_facts(bg);
    }
    let stats = channel_stats(bg);
    let (l, d, den) = stats;
    let bg_luma = 299 * (bg.0 as i64) + 587 * (bg.1 as i64) + 114 * (bg.2 as i64);
    let t = d + 2 * l;
    assert(0 <= 1000 * d * t <= 1000 * 255 * 510) by (nonlinear_arith)
        requires
            0 <= d <= 255,
            0 <= t <= 510,
    ;
    let dark = bg_luma < DARK_LUMINANCE_LIMIT * 255 && 1000 * d * t > COLOURFUL_LIMIT * 510 * den;
    let light = if dark && hue_test(bg, stats) {
        true
    } else {
        tint_gap(bg, LIGHT_LABEL_LIGHTNESS, stats, bg_luma) > tint_gap(
            bg,
            DARK_LABEL_LIGHTNESS,
            stats,
            bg_luma,
        )
    };
    if light {
        label_candidate(bg, LIGHT_LABEL_LIGHTNESS)
    } else {
        label_candidate(bg, DARK_LABEL_LIGHTNESS)
    }
}

proof fn lemma_tint_scaled_range(c: (u8, u8, u8), x: int, lt: int)
    requires
        0 <= lt <= 1000,
        lo(c) <= x <= hi(c),
    ensures
        0 <= tint_scaled(c, x, lt) <= 4000 * sat_den(c),
{
    lemma_channel_facts(c);
    let k = chroma_room(lt);
    let d = spread(c);
    let den = sat_den(c);
    let t = x - lo(c);
    assert(0 <= 2 * k * t <= 2 * k * d) by (nonlinear_arith)
        requires
            0 <= k <= 2000,
            0 <= t <= d,
    ;
    assert(4 * lt * den - k * d >= 0 && 4 * lt * den + k * d <= 4000 * den) by (nonlinear_arith)
        requires
            0 <= lt <= 1000,
            k == (if 2 * lt >= 1000 {
                2000 - 2 * lt
            } else {
                2 * lt
            }),
            0 <= d <= den,
    ;
    assert(tint_scaled(c, x, lt) == 4 * lt * den - k * d + 2 * k * t);
    assert(0 <= 4 * lt * den - k * d + 2 * k * t <= 4000 * den) by (nonlinear_arith)
        requires
            0 <= 2 * k * t <= 2 * k * d,
            4 * lt * den - k * d >= 0,
            4 * lt * den + k * d <= 4000 * den,
    ;
}

proof fn lemma_to_channel_range(n: int, den: int)
    requires
        1 <= den,
        0 <= n <= 4000 * den,
    ensures
        0 <= to_channel(n, den) <= 255,
{
    let a = 510 * n + 4000 * den;
    let m = 8000 * den;
    lemma_fundamental_div_mod(a, m);
    assert(a <= 511 * 4000 * den) by (nonlinear_arith)
        requires
            a == 510 * n + 4000 * den,
            n <= 4000 * den,
    ;
    assert(0 <= a / m < 256) by (nonlinear_arith)
        requires
            a == m * (a / m) + a % m,
            0 <= a % m < m,
            0 <= a <= 511 * 4000 * den,
            m == 8000 * den,
            den >= 1,
    ;
}

proof fn lemma_to_channel_gap(n1: int, n2: int, den: int)
    requires
        1 <= den,
        0 <= n1,
        510 * (n2 - n1) >= 8000 * den,
    ensures
        to_channel(n1, den) < to_channel(n2, den),
{
    let a1 = 510 * n1 + 4000 * den;
    let a2 = 510 * n2 + 4000 * den;
    let m = 8000 * den;
    lemma_fundamental_div_mod(a1, m);
    lemma_fundamental_div_mod(a2, m);
    assert(a1 / m < a2 / m) by (nonlinear_arith)
        requires
            a1 == m * (a1 / m) + a1 % m,
            a2 == m * (a2 / m) + a2 % m,
            0 <= a1 % m < m,
            0 <= a2 % m < m,
            a2 - a1 >= m,
            m > 0,
    ;
}

proof fn lemma_tint_keeps_colour(c: (u8, u8, u8), lt: int)
    requires
        lt == LIGHT_LABEL_LIGHTNESS || lt == DARK_LABEL_LIGHTNESS,
        20 * spread(c) > sat_den(c),
    ensures
        !(tint(c, lt).0 == tint(c, lt).1 && tint(c, lt).1 == tint(c, lt).2),
{
    lemma_channel_facts(c);
    let den = sat_den(c);
    let d = spread(c);
    let k = chroma_room(lt);
    let n_lo = tint_scaled(c, lo(c), lt);
    let n_hi = tint_scaled(c, hi(c), lt);
    assert(n_hi - n_lo == 2 * k * d) by (nonlinear_arith)
        requires
            n_lo == 4 * lt * den - k * d + 2 * k * (lo(c) - lo(c)),
            n_hi == 4 * lt * den - k * d + 2 * k * (hi(c) - lo(c)),
            d == hi(c) - lo(c),
    ;
    assert(510 * (n_hi - n_lo) >= 8000 * den) by (nonlinear_arith)
        requires
            n_hi - n_lo == 2 * k * d,
            k >= 450,
            20 * d > den,
            den >= 1,
    ;
    lemma_tint_scaled_range(c, lo(c), lt);
    lemma_tint_scaled_range(c, hi(c), lt);
    lemma_to_channel_gap(n_lo, n_hi, den);
    lemma_to_channel_range(n_lo, den);
    lemma_to_channel_range(n_hi, den);
    let f = to_channel(n_lo, den) as u8;
    let g = to_channel(n_hi, den) as u8;
    assert(f != g);
    let t = tint(c, lt);
    assert(c.0 as int == lo(c) ==> t.0 == f);
    assert(c.1 as int == lo(c) ==> t.1 == f);
    assert(c.2 as int == lo(c) ==> t.2 == f);
    assert(c.0 as int == hi(c) ==> t.0 == g);
    assert(c.1 as int == hi(c) ==> t.1 == g);
    assert(c.2 as int == hi(c) ==> t.2 == g);
}

/// On a background whose saturation is above 5% the label is never gray:
/// its channels are not all equal.
pub proof fn lemma_label_not_gray(bg: (u8, u8, u8))
    requires
        20 * spread(bg) > sat_den(bg),
    ensures
        !(label_color(bg).0 == label_color(bg).1 && label_color(bg).1 == label_color(bg).2),
{
    lemma_tint_keeps_colour(bg, LIGHT_LABEL_LIGHTNESS as int);
    lemma_tint_keeps_colour(bg, DARK_LABEL_LIGHTNESS as int);
}

/// On a fully desaturated background the label is the tint whose luminance
/// is farther from the background's, the dark one when both are as far.
pub proof fn lemma_gray_label_by_distance(bg: (u8, u8, u8))
    requires
        spread(bg) == 0,
    ensures
        label_color(bg) == (if luma_gap(bg, LIGHT_LABEL_LIGHTNESS as int) > luma_gap(
            bg,
            DARK_LABEL_LIGHTNESS as int,
        ) {
            tint(bg, LIGHT_LABEL_LIGHTNESS as int)
        } else {
            tint(bg, DARK_LABEL_LIGHTNESS as int)
        }),
{
}

/// A visually dark background whose hue lies in a light-preferring band gets
/// the light tint, whatever the luminance distances are.
pub proof fn lemma_dark_band_gets_light_label(bg: (u8, u8, u8))
    requires
        visually_dark(bg),
        hue_prefers_light(bg),
    ensures
        label_color(bg) == tint(bg, LIGHT_LABEL_LIGHTNESS as int),
{
}

/// `1 - |2L - 1|` for the shadow's lightness `L = total(c) / 510 - 0.1`,
/// times 510.
pub open spec fn shadow_room(c: (u8, u8, u8)) -> int {
    let v = 2 * total(c) - 612;
    if v >= 0 {
        510 - v
    } else {
        510 + v
    }
}

/// One channel of the shadow of `c`, times `1020 * sat_den(c)`; `x` is the
/// background's value of that channel.
pub open spec fn shadow_scaled(c: (u8, u8, u8), x: int) -> int {
    let k = shadow_room(c);
    2 * sat_den(c) * (total(c) - 51) - k * spread(c) + 2 * k * (x - lo(c))
}

/// A shadow channel rounded to the nearest 8-bit value, halves up.
pub open spec fn shadow_channel(c: (u8, u8, u8), x: int) -> u8 {
    ((shadow_scaled(c, x) + 2 * sat_den(c)) / (4 * sat_den(c))) as u8
}

/// The colour with the hue and saturation of `c` and its HSL lightness less
/// 0.1, black where that is not above 0.
pub open spec fn shadow(c: (u8, u8, u8)) -> (u8, u8, u8) {
    if total(c) <= 51 {
        (0, 0, 0)
    } else {
        (shadow_channel(c, c.0 as int), shadow_channel(c, c.1 as int), shadow_channel(c, c.2 as int))
    }
}

fn shadow_part(c: (u8, u8, u8), x: u8, stats: (i64, i64, i64)) -> (r: u8)
    requires
        stats.0 == lo(c),
        stats.1 == spread(c),
        stats.2 == sat_den(c),
        total(c) > 51,
        lo(c) <= x <= hi(c),
    ensures
        r == shadow_channel(c, x as int),
{
    proof {
        lemma_channel_facts(c);
    }
    let (l, d, den) = stats;
    let t = d + 2 * l;
    let v = 2 * t - 612;
    let k: i64 = if v >= 0 {
        510 - v
    } else {
        510 + v
    };
    let w = x as i64 - l;
    assert(0 <= k <= 2 * (t - 51) && k <= 1122 - 2 * t);
    assert(0 <= k * d <= k * den && k * den <= 2 * (t - 51) * den && k * den <= (1122 - 2 * t)
        * den) by (nonlinear_arith)
        requires
            0 <= k <= 2 * (t - 51),
            k <= 1122 - 2 * t,
            0 <= d <= den,
    ;
    assert(0 <= 2 * k * w <= 2 * k * d <= 2 * 1020 * 255) by (nonlinear_arith)
        requires
            0 <= k <= 1020,
            0 <= w <= d,
            d <= 255,
    ;
    assert(k * d <= 1020 * 255) by (nonlinear_arith)
        requires
            0 <= k <= 1020,
            0 <= d <= 255,
    ;
    assert(0 <= 2 * den * (t - 51) <= 1020 * 255) by (nonlinear_arith)
        requires
            1 <= den <= 255,
            51 < t <= 510,
    ;
    let base = 2 * den * (t - 51);
    let kd = k * d;
    let kw = 2 * k * w;
    let n = base - kd + kw;
    assert(0 <= n <= 1020 * den) by (nonlinear_arith)
        requires
            n == base - kd + kw,
            base == 2 * den * (t - 51),
            0 <= kd <= k * den,
            k * den <= 2 * (t - 51) * den,
            k * den <= (1122 - 2 * t) * den,
            kd == k * d,
            kw == 2 * k * w,
            0 <= w <= d,
            0 <= k,
    ;
    assert(n == shadow_scaled(c, x as int));
    let num = n + 2 * den;
    let m = 4 * den;
    let q = num / m;
    proof {
        let a = num as int;
        let mm = m as int;
        lemma_fundamental_div_mod(a, mm);
        assert(0 <= a / mm < 256) by (nonlinear_arith)
            requires
                a == mm * (a / mm) + a % mm,
                0 <= a % mm < mm,
                0 <= a <= 1022 * den,
                mm == 4 * den,
                den >= 1,
        ;
    }
    q as u8
}

/// The colour of the shadow strip under a swatch: the background's hue and
/// saturation at a lightness 0.1 lower, floored at black.
pub fn shadow_color(bg: (u8, u8, u8)) -> (r: (u8, u8, u8))
    ensures
        r == shadow(bg),
{
    proof {
        lemma_channel_facts(bg);
    }
    let stats = channel_stats(bg);
    let (l, d, _) = stats;
    if d + 2 * l <= 51 {
        return (0, 0, 0);
    }
    (shadow_part(bg, bg.0, stats), shadow_part(bg, bg.1, stats), shadow_part(bg, bg.2, stats))
}

} // verus!
