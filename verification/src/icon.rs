//! The picture of the tray icon: a glowing eye, a lens inside a dark ring.
//!
//! Lengths are in billionths of a pixel, and shades in billionths of full light.

use vstd::prelude::*;

use crate::embedding::compute_root;
use crate::fixed::{divide, ONE};
use crate::relevance::compute_decay;

verus! {

/// Width and height of the icon in pixels.
pub const ICON_SIZE: u32 = 64;

/// The width of the ring.
pub const RING_WIDTH: i128 = 2_500_000_000;

/// Half a pixel.
pub const HALF: i128 = 500_000_000;

/// The hue of the icon.
#[derive(Debug, Clone, Copy, PartialEq, Eq, Structural)]
pub enum IconColor {
    Red,
    Orange,
}

/// A pixel: red, green, blue and opacity.
#[derive(Debug, Clone, Copy, PartialEq, Eq, Structural)]
pub struct Pixel {
    pub r: u8,
    pub g: u8,
    pub b: u8,
    pub a: u8,
}

/// A shade as a byte.
pub open spec fn byte_of(shade: int) -> u8 {
    crate::fixed::clamped(shade * 255 / (ONE as int), 0, 255) as u8
}

/// The outer radius of the ring: two pixels from the edge.
pub open spec fn outer_radius(size: int) -> int {
    size * HALF - 2 * ONE
}

/// The radius of the lens.
pub open spec fn lens_radius(size: int) -> int {
    outer_radius(size) - RING_WIDTH
}

/// How far the middle of a pixel is from the middle of the icon, along an edge.
pub open spec fn offset(size: int, x: int) -> int {
    x * ONE - size * HALF + HALF
}

/// The square of how far the middle of a pixel is from the middle of the icon.
pub open spec fn square_distance(size: int, x: int, y: int) -> int {
    offset(size, x) * offset(size, x) + offset(size, y) * offset(size, y)
}

/// How far the middle of a pixel is from the middle of the icon.
pub open spec fn distance(size: int, x: int, y: int) -> int {
    crate::embedding::root(square_distance(size, x, y) as nat) as int
}

/// The radius of the whole picture: a pixel and a half from the edge.
pub open spec fn rim(size: int) -> int {
    outer_radius(size) + HALF
}

/// The middle of a pixel lies outside the picture.
pub open spec fn is_outside(size: int, x: int, y: int) -> bool {
    rim(size) < 0 || square_distance(size, x, y) > rim(size) * rim(size)
}

/// The grey of the ring, with a highlight at two fifths of its width.
pub open spec fn ring_grey(from_lens: int) -> int {
    let t = from_lens * ONE / (RING_WIDTH as int);
    let off = if t < 400_000_000 {
        400_000_000 - t
    } else {
        t - 400_000_000
    };
    let light = ONE - 3 * off;
    100_000_000 + if light > 0 {
        light * 12 / 100
    } else {
        0
    }
}

/// The share of a hue in red, green and blue.
pub open spec fn hue(color: IconColor) -> (int, int, int) {
    match color {
        IconColor::Red => (1_000_000_000, 60_000_000, 20_000_000),
        IconColor::Orange => (1_000_000_000, 500_000_000, 60_000_000),
    }
}

/// The wide and the main glow at a squared part of the radius, before
/// brightness.
pub open spec fn glow_at(square: int) -> int {
    crate::relevance::decay(3 * square / 2) * 25 / 100 + crate::relevance::decay(7 * square / 2) * 7
        / 10
}

/// The white-hot core at a squared part of the radius, before brightness.
pub open spec fn core_at(square: int) -> int {
    crate::relevance::decay(20 * square)
}

/// A shade of the lens: its background with the glow and the core on it.
pub open spec fn lens_shade(glow: int, share: int, core: int, core_share: int) -> int {
    let v = 20_000_000 + crate::fixed::quotient(glow * share, ONE as int) + crate::fixed::quotient(
        core * core_share,
        ONE as int,
    );
    if v < ONE {
        v
    } else {
        ONE as int
    }
}

/// The pixel of the ring at a distance from the middle.
pub open spec fn ring_pixel(size: int, dist: int) -> Pixel {
    let outer = outer_radius(size);
    let grey = ring_grey(dist - lens_radius(size));
    Pixel {
        r: byte_of(grey),
        g: byte_of(grey),
        b: byte_of(grey + 15_000_000),
        a: byte_of(
            if dist > outer - HALF {
                crate::fixed::clamped(outer + HALF - dist, 0, ONE as int)
            } else {
                ONE as int
            },
        ),
    }
}

/// The pixel of the lens at a distance from the middle. A lens without extent is
/// white.
pub open spec fn lens_pixel(size: int, dist: int, brightness: int, color: IconColor) -> Pixel {
    let lens = lens_radius(size);
    let a = byte_of(
        if dist > lens - ONE {
            crate::fixed::clamped(lens + HALF - dist, 0, ONE as int)
        } else {
            ONE as int
        },
    );
    if lens <= 0 {
        Pixel { r: 255, g: 255, b: 255, a }
    } else {
        let part = dist * ONE / lens;
        let square = part * part / (ONE as int);
        let glow = crate::fixed::quotient(glow_at(square) * brightness, ONE as int);
        let core = crate::fixed::quotient(core_at(square) * brightness, ONE as int);
        Pixel {
            r: byte_of(lens_shade(glow, hue(color).0, core, ONE as int)),
            g: byte_of(lens_shade(glow, hue(color).1, core, 700_000_000)),
            b: byte_of(lens_shade(glow, hue(color).2, core, 500_000_000)),
            a,
        }
    }
}

/// A pixel of the icon: transparent outside, then the ring, then the lens.
pub open spec fn icon_pixel(size: int, brightness: int, color: IconColor, x: int, y: int) -> Pixel {
    let dist = distance(size, x, y);
    if is_outside(size, x, y) {
        Pixel { r: 0, g: 0, b: 0, a: 0 }
    } else if dist > lens_radius(size) + HALF {
        ring_pixel(size, dist)
    } else {
        lens_pixel(size, dist, brightness, color)
    }
}

/// The four bytes of a pixel.
pub open spec fn pixel_bytes(p: Pixel) -> Seq<u8> {
    seq![p.r, p.g, p.b, p.a]
}

/// The bytes of the first `n` pixels, row by row.
pub open spec fn icon_bytes(size: int, brightness: int, color: IconColor, n: nat) -> Seq<u8>
    decreases n,
{
    if n == 0 {
        Seq::empty()
    } else {
        icon_bytes(size, brightness, color, (n - 1) as nat) + pixel_bytes(
            icon_pixel(size, brightness, color, (n - 1) % size, (n - 1) / size),
        )
    }
}

/// A shade as a byte.
fn to_byte(shade: i128) -> (r: u8)
    requires
        -0x1_0000_0000_0000_0000_0000 <= shade <= 0x1_0000_0000_0000_0000_0000,
    ensures
        r == byte_of(shade as int),
{
    if shade <= 0 {
        return 0;
    }
    let v: i128 = shade * 255 / (ONE as i128);
    if v > 255 {
        255
    } else {
        v as u8
    }
}

/// A value between zero and one.
fn to_unit(v: i128) -> (r: i128)
    ensures
        r == crate::fixed::clamped(v as int, 0, ONE as int),
{
    if v < 0 {
        0
    } else if v > ONE as i128 {
        ONE as i128
    } else {
        v
    }
}

/// Computes the square of how far the middle of a pixel is from the middle of
/// the icon.
fn compute_square(size: u32, x: u32, y: u32) -> (r: i128)
    requires
        x < size,
        y < size,
    ensures
        r == square_distance(size as int, x as int, y as int),
        0 <= r < 0x2000_0000_0000_0000_0000_0000_0000_0000,
{
    let dx: i128 = (x as i128) * (ONE as i128) - (size as i128) * HALF + HALF;
    let dy: i128 = (y as i128) * (ONE as i128) - (size as i128) * HALF + HALF;
    assert(0 <= dx * dx <= 0x1fff_ffff_ffff_ffff * 0x1fff_ffff_ffff_ffff) by (nonlinear_arith)
        requires
            -0x1fff_ffff_ffff_ffff <= dx <= 0x1fff_ffff_ffff_ffff,
    ;
    assert(0 <= dy * dy <= 0x1fff_ffff_ffff_ffff * 0x1fff_ffff_ffff_ffff) by (nonlinear_arith)
        requires
            -0x1fff_ffff_ffff_ffff <= dy <= 0x1fff_ffff_ffff_ffff,
    ;
    dx * dx + dy * dy
}

/// Computes the pixel of the ring at a distance from the middle.
fn compute_ring_pixel(size: u32, dist: i128) -> (r: Pixel)
    requires
        lens_radius(size as int) < dist < 0x8000_0000_0000_0000,
    ensures
        r == ring_pixel(size as int, dist as int),
{
    let outer: i128 = (size as i128) * HALF - 2 * (ONE as i128);
    let lens: i128 = outer - RING_WIDTH;
    let t: i128 = (dist - lens) * (ONE as i128) / RING_WIDTH;
    let off: i128 = if t < 400_000_000 {
        400_000_000 - t
    } else {
        t - 400_000_000
    };
    let light: i128 = (ONE as i128) - 3 * off;
    let grey: i128 = 100_000_000 + if light > 0 {
        light * 12 / 100
    } else {
        0
    };
    let opacity: i128 = if dist > outer - HALF {
        to_unit(outer + HALF - dist)
    } else {
        ONE as i128
    };
    let shade: u8 = to_byte(grey);
    Pixel { r: shade, g: shade, b: to_byte(grey + 15_000_000), a: to_byte(opacity) }
}

/// Computes a shade of the lens.
fn compute_lens_shade(glow: i128, share: i64, core: i128, core_share: i64) -> (r: i128)
    requires
        0 <= share <= ONE,
        0 <= core_share <= ONE,
        -0x8000_0000_0000_0000 <= glow <= 0x8000_0000_0000_0000,
        -0x8000_0000_0000_0000 <= core <= 0x8000_0000_0000_0000,
    ensures
        r == lens_shade(glow as int, share as int, core as int, core_share as int),
        -0x2_0000_0000_0000_0000 <= r <= ONE,
{
    assert(-0x8000_0000_0000_0000 * 1_000_000_000 <= glow * share <= 0x8000_0000_0000_0000
        * 1_000_000_000) by (nonlinear_arith)
        requires
            0 <= share <= 1_000_000_000,
            -0x8000_0000_0000_0000 <= glow <= 0x8000_0000_0000_0000,
    ;
    assert(-0x8000_0000_0000_0000 * 1_000_000_000 <= core * core_share <= 0x8000_0000_0000_0000
        * 1_000_000_000) by (nonlinear_arith)
        requires
            0 <= core_share <= 1_000_000_000,
            -0x8000_0000_0000_0000 <= core <= 0x8000_0000_0000_0000,
    ;
    let v: i128 = 20_000_000 + divide(glow * (share as i128), ONE as i128) + divide(
        core * (core_share as i128),
        ONE as i128,
    );
    if v < ONE as i128 {
        v
    } else {
        ONE as i128
    }
}

/// Computes the pixel of the lens at a distance from the middle.
fn compute_lens_pixel(size: u32, dist: i128, brightness: i64, color: IconColor) -> (r: Pixel)
    requires
        0 <= dist <= lens_radius(size as int) + HALF,
    ensures
        r == lens_pixel(size as int, dist as int, brightness as int, color),
{
    let lens: i128 = (size as i128) * HALF - 2 * (ONE as i128) - RING_WIDTH;
    let opacity: i128 = if dist > lens - ONE as i128 {
        to_unit(lens + HALF - dist)
    } else {
        ONE as i128
    };
    let a: u8 = to_byte(opacity);
    if lens <= 0 {
        return Pixel { r: 255, g: 255, b: 255, a };
    }
    let part: i128 = dist * (ONE as i128) / lens;
    proof {
        assert(lens >= HALF);
        assert(0 <= part <= 2_000_000_000) by (nonlinear_arith)
            requires
                part == dist * 1_000_000_000 / (lens as int),
                0 <= dist <= lens + 500_000_000,
                lens >= 500_000_000,
        ;
        assert(0 <= part * part <= 2_000_000_000 * 2_000_000_000) by (nonlinear_arith)
            requires
                0 <= part <= 2_000_000_000,
        ;
    }
    let square: i128 = part * part / (ONE as i128);
    let ambient: i128 = compute_decay(3 * square / 2) as i128;
    let main: i128 = compute_decay(7 * square / 2) as i128;
    let hot: i128 = compute_decay(20 * square) as i128;
    let shine: i128 = ambient * 25 / 100 + main * 7 / 10;
    let b: i128 = brightness as i128;
    assert(-1_000_000_000 * 0x8000_0000_0000_0000 <= shine * b <= 1_000_000_000
        * 0x8000_0000_0000_0000) by (nonlinear_arith)
        requires
            0 <= shine <= 1_000_000_000,
            -0x8000_0000_0000_0000 <= b <= 0x8000_0000_0000_0000,
    ;
    assert(-1_000_000_000 * 0x8000_0000_0000_0000 <= hot * b <= 1_000_000_000
        * 0x8000_0000_0000_0000) by (nonlinear_arith)
        requires
            0 <= hot <= 1_000_000_000,
            -0x8000_0000_0000_0000 <= b <= 0x8000_0000_0000_0000,
    ;
    let glow: i128 = divide(shine * b, ONE as i128);
    let core: i128 = divide(hot * b, ONE as i128);
    let shares: (i64, i64, i64) = match color {
        IconColor::Red => (1_000_000_000, 60_000_000, 20_000_000),
        IconColor::Orange => (1_000_000_000, 500_000_000, 60_000_000),
    };
    Pixel {
        r: to_byte(compute_lens_shade(glow, shares.0, core, ONE)),
        g: to_byte(compute_lens_shade(glow, shares.1, core, 700_000_000)),
        b: to_byte(compute_lens_shade(glow, shares.2, core, 500_000_000)),
        a,
    }
}

/// Computes a pixel of the icon.
pub fn compute_pixel(size: u32, brightness: i64, color: IconColor, x: u32, y: u32) -> (r: Pixel)
    requires
        x < size,
        y < size,
    ensures
        r == icon_pixel(size as int, brightness as int, color, x as int, y as int),
{
    let outer: i128 = (size as i128) * HALF - 2 * (ONE as i128);
    let lens: i128 = outer - RING_WIDTH;
    let edge: i128 = outer + HALF;
    let square: i128 = compute_square(size, x, y);
    assert(0 <= edge * edge <= 0x1fff_ffff_ffff_ffff * 0x1fff_ffff_ffff_ffff) by (nonlinear_arith)
        requires
            -0x1fff_ffff_ffff_ffff <= edge <= 0x1fff_ffff_ffff_ffff,
    ;
    if edge < 0 || square > edge * edge {
        return Pixel { r: 0, g: 0, b: 0, a: 0 };
    }
    let dist: i128 = compute_root(square as u128) as i128;
    assert(dist <= edge) by (nonlinear_arith)
        requires
            dist * dist <= square,
            square <= edge * edge,
            0 <= edge,
            0 <= dist,
    ;
    if dist > lens + HALF {
        compute_ring_pixel(size, dist)
    } else {
        compute_lens_pixel(size, dist, brightness, color)
    }
}

/// Draws the icon: the bytes of `size * size` pixels, row by row.
///
/// * `size` – width and height in pixels.
/// * `brightness` – the strength of the glow, from zero (off) to one (full).
/// * `color` – the hue of the lens.
pub fn generate(size: u32, brightness: i64, color: IconColor) -> (r: Vec<u8>)
    requires
        size * size * 4 <= usize::MAX,
    ensures
        r@ == icon_bytes(size as int, brightness as int, color, (size * size) as nat),
        r.len() == size * size * 4,
{
    let mut out: Vec<u8> = Vec::new();
    let ghost total = size * size;
    assert(total >= size) by (nonlinear_arith)
        requires
            total == size * size,
            size >= 0,
    ;
    let n: usize = (size as usize) * (size as usize);
    let mut i: usize = 0;
    while i < n
        invariant
            i <= n,
            n == size * size,
            out.len() == 4 * i,
            out@ == icon_bytes(size as int, brightness as int, color, i as nat),
        decreases n - i,
    {
        assert(size > 0 && i / (size as usize) < size && i % (size as usize) < size)
            by (nonlinear_arith)
            requires
                0 <= i < n,
                n == size * size,
        ;
        let x: u32 = (i % (size as usize)) as u32;
        let y: u32 = (i / (size as usize)) as u32;
        let p: Pixel = compute_pixel(size, brightness, color, x, y);
        let ghost before = out@;
        out.push(p.r);
        out.push(p.g);
        out.push(p.b);
        out.push(p.a);
        assert(out@ =~= before + pixel_bytes(p));
        i = i + 1;
    }
    out
}

// ---- laws ----

/// The four bytes of the pixel at a place of a picture.
pub open spec fn bytes_at(picture: Seq<u8>, size: int, x: int, y: int) -> Seq<u8> {
    picture.subrange(4 * (y * size + x), 4 * (y * size + x) + 4)
}

proof fn lemma_bytes(size: int, brightness: int, color: IconColor, n: nat, i: int)
    requires
        0 <= i < n,
    ensures
        icon_bytes(size, brightness, color, n).len() == 4 * n,
        icon_bytes(size, brightness, color, n).subrange(4 * i, 4 * i + 4) == pixel_bytes(
            icon_pixel(size, brightness, color, i % size, i / size),
        ),
    decreases n,
{
    let all = icon_bytes(size, brightness, color, n);
    let front = icon_bytes(size, brightness, color, (n - 1) as nat);
    let last = pixel_bytes(
        icon_pixel(size, brightness, color, (n - 1) % size, (n - 1) / size),
    );
    if n > 1 {
        lemma_bytes(size, brightness, color, (n - 1) as nat, 0);
    }
    if i == n - 1 {
        assert(all.subrange(4 * i, 4 * i + 4) == last);
    } else {
        lemma_bytes(size, brightness, color, (n - 1) as nat, i);
        assert(all.subrange(4 * i, 4 * i + 4) == front.subrange(4 * i, 4 * i + 4));
    }
}

/// The bytes of a picture are those of its pixels, at their places.
pub proof fn law_pixels_have_their_places(
    size: int,
    brightness: int,
    color: IconColor,
    x: int,
    y: int,
)
    requires
        0 <= x < size,
        0 <= y < size,
    ensures
        ({
            let picture = icon_bytes(size, brightness, color, (size * size) as nat);
            &&& picture.len() == 4 * (size * size)
            &&& bytes_at(picture, size, x, y) == pixel_bytes(
                icon_pixel(size, brightness, color, x, y),
            )
        }),
{
    let i = y * size + x;
    assert(0 <= i < size * size) by (nonlinear_arith)
        requires
            0 <= x < size,
            0 <= y < size,
            i == y * size + x,
    ;
    vstd::arithmetic::div_mod::lemma_fundamental_div_mod_converse(i, size, y, x);
    lemma_bytes(size, brightness, color, (size * size) as nat, i);
}

/// A picture is the same from left to right and from right to left, and from top
/// to bottom and from bottom to top.
pub proof fn law_icon_is_symmetric(
    size: int,
    brightness: int,
    color: IconColor,
    x: int,
    y: int,
)
    ensures
        icon_pixel(size, brightness, color, size - 1 - x, y) == icon_pixel(
            size,
            brightness,
            color,
            x,
            y,
        ),
        icon_pixel(size, brightness, color, x, size - 1 - y) == icon_pixel(
            size,
            brightness,
            color,
            x,
            y,
        ),
{
    lemma_mirrored(size, x);
    lemma_mirrored(size, y);
}

proof fn lemma_mirrored(size: int, x: int)
    ensures
        offset(size, size - 1 - x) * offset(size, size - 1 - x) == offset(size, x) * offset(
            size,
            x,
        ),
{
    let a = offset(size, size - 1 - x);
    let b = offset(size, x);
    assert(a == -b);
    assert(a * a == b * b) by (nonlinear_arith)
        requires
            a == -b,
    ;
}

/// The rim is transparent: all pixels whose middle is further from the middle of
/// the icon than half its size less a pixel and a half.
pub proof fn law_rim_is_transparent(
    size: int,
    brightness: int,
    color: IconColor,
    x: int,
    y: int,
)
    requires
        size * HALF - 1_500_000_000 < 0 || square_distance(size, x, y) > (size * HALF
            - 1_500_000_000) * (size * HALF - 1_500_000_000),
    ensures
        icon_pixel(size, brightness, color, x, y) == (Pixel { r: 0, g: 0, b: 0, a: 0 }),
{
    assert(rim(size) == size * HALF - 1_500_000_000);
}

/// Without light the hue does not show.
pub proof fn law_hue_needs_light(size: int, x: int, y: int)
    ensures
        icon_pixel(size, 0, IconColor::Red, x, y) == icon_pixel(size, 0, IconColor::Orange, x, y),
{
    let dist = distance(size, x, y);
    let lens = lens_radius(size);
    if lens > 0 {
        let part = dist * ONE / lens;
        let square = part * part / (ONE as int);
        let glow = glow_at(square) * 0;
        let core = core_at(square) * 0;
        assert(glow == 0 && core == 0) by (nonlinear_arith)
            requires
                glow == glow_at(square) * 0,
                core == core_at(square) * 0,
        ;
        assert forall|share: int, core_share: int| #[trigger]
            lens_shade(0, share, 0, core_share) == 20_000_000 by {
            assert(0 * share == 0 && 0 * core_share == 0) by (nonlinear_arith);
        }
    }
}

/// The corners of an icon of at least two pixels are transparent, whatever its
/// brightness and hue.
pub proof fn law_corner_is_transparent(size: int, brightness: int, color: IconColor)
    requires
        size >= 2,
    ensures
        icon_pixel(size, brightness, color, 0, 0) == (Pixel { r: 0, g: 0, b: 0, a: 0 }),
{
    let d = offset(size, 0);
    let o = rim(size);
    if o >= 0 {
        assert(o == -d - ONE);
        assert(d * d + d * d > o * o) by (nonlinear_arith)
            requires
                o == -d - 1_000_000_000,
                o >= 0,
        ;
    }
}

/// More light never makes a pixel darker, and has no part in its opacity.
pub proof fn law_light_shows(size: int, b1: int, b2: int, color: IconColor, x: int, y: int)
    requires
        0 <= b1 <= b2,
    ensures
        ({
            let p = icon_pixel(size, b1, color, x, y);
            let q = icon_pixel(size, b2, color, x, y);
            p.r <= q.r && p.g <= q.g && p.b <= q.b && p.a == q.a
        }),
{
    let dist = distance(size, x, y);
    let lens = lens_radius(size);
    if lens > 0 {
        let part = dist * ONE / lens;
        let square = part * part / (ONE as int);
        lemma_glow_is_light(square);
        let (g1, g2) = (
            crate::fixed::quotient(glow_at(square) * b1, ONE as int),
            crate::fixed::quotient(glow_at(square) * b2, ONE as int),
        );
        let (c1, c2) = (
            crate::fixed::quotient(core_at(square) * b1, ONE as int),
            crate::fixed::quotient(core_at(square) * b2, ONE as int),
        );
        lemma_scaled(glow_at(square), b1, b2);
        lemma_scaled(core_at(square), b1, b2);
        lemma_shades(g1, g2, c1, c2, 1_000_000_000, 1_000_000_000);
        lemma_shades(g1, g2, c1, c2, hue(color).1, 700_000_000);
        lemma_shades(g1, g2, c1, c2, hue(color).2, 500_000_000);
    }
}

proof fn lemma_glow_is_light(square: int)
    ensures
        glow_at(square) >= 0,
        core_at(square) >= 0,
{
}

proof fn lemma_scaled(light: int, b1: int, b2: int)
    requires
        light >= 0,
        0 <= b1 <= b2,
    ensures
        0 <= crate::fixed::quotient(light * b1, ONE as int) <= crate::fixed::quotient(
            light * b2,
            ONE as int,
        ),
{
    assert(0 <= light * b1 <= light * b2) by (nonlinear_arith)
        requires
            light >= 0,
            0 <= b1 <= b2,
    ;
    crate::fixed::lemma_quotient_monotone(light * b1, light * b2, ONE as int);
    crate::fixed::lemma_quotient_monotone(0, light * b1, ONE as int);
}

proof fn lemma_shades(g1: int, g2: int, c1: int, c2: int, share: int, core_share: int)
    requires
        0 <= g1 <= g2,
        0 <= c1 <= c2,
        share >= 0,
        core_share >= 0,
    ensures
        byte_of(lens_shade(g1, share, c1, core_share)) <= byte_of(
            lens_shade(g2, share, c2, core_share),
        ),
{
    assert(g1 * share <= g2 * share && c1 * core_share <= c2 * core_share) by (nonlinear_arith)
        requires
            g1 <= g2,
            c1 <= c2,
            share >= 0,
            core_share >= 0,
    ;
    crate::fixed::lemma_quotient_monotone(g1 * share, g2 * share, ONE as int);
    crate::fixed::lemma_quotient_monotone(c1 * core_share, c2 * core_share, ONE as int);
    let (s1, s2) = (lens_shade(g1, share, c1, core_share), lens_shade(g2, share, c2, core_share));
    assert(s1 * 255 / 1_000_000_000 <= s2 * 255 / 1_000_000_000);
}

/// Orange is red with more green and blue in it.
pub proof fn law_hues(size: int, brightness: int, x: int, y: int)
    requires
        brightness >= 0,
    ensures
        ({
            let p = icon_pixel(size, brightness, IconColor::Red, x, y);
            let q = icon_pixel(size, brightness, IconColor::Orange, x, y);
            p.r == q.r && p.g <= q.g && p.b <= q.b && p.a == q.a
        }),
        hue(IconColor::Red) == (1_000_000_000int, 60_000_000int, 20_000_000int),
        hue(IconColor::Orange) == (1_000_000_000int, 500_000_000int, 60_000_000int),
{
    let dist = distance(size, x, y);
    let lens = lens_radius(size);
    if lens > 0 {
        let part = dist * ONE / lens;
        let square = part * part / (ONE as int);
        lemma_glow_is_light(square);
        lemma_scaled(glow_at(square), brightness, brightness);
        let glow = crate::fixed::quotient(glow_at(square) * brightness, ONE as int);
        let core = crate::fixed::quotient(core_at(square) * brightness, ONE as int);
        lemma_more_share(glow, 60_000_000, 500_000_000, core, 700_000_000);
        lemma_more_share(glow, 20_000_000, 60_000_000, core, 500_000_000);
    }
}

proof fn lemma_more_share(glow: int, s1: int, s2: int, core: int, core_share: int)
    requires
        glow >= 0,
        s1 <= s2,
    ensures
        byte_of(lens_shade(glow, s1, core, core_share)) <= byte_of(
            lens_shade(glow, s2, core, core_share),
        ),
{
    assert(glow * s1 <= glow * s2) by (nonlinear_arith)
        requires
            glow >= 0,
            s1 <= s2,
    ;
    crate::fixed::lemma_quotient_monotone(glow * s1, glow * s2, ONE as int);
    let (a, b) = (
        lens_shade(glow, s1, core, core_share),
        lens_shade(glow, s2, core, core_share),
    );
    assert(a * 255 / 1_000_000_000 <= b * 255 / 1_000_000_000);
}

/// The ring is grey, with its highlight at two fifths of its width: from 0.1 it rises up to
/// there and falls behind it, to no less than that.
pub proof fn law_ring_has_a_highlight(w1: int, w2: int)
    requires
        0 <= w1 <= w2,
    ensures
        ring_grey(1_000_000_000) == 220_000_000,
        100_000_000 <= ring_grey(w1) <= 220_000_000,
        w2 <= 1_000_000_000 ==> ring_grey(w1) <= ring_grey(w2),
        1_000_000_000 <= w1 ==> ring_grey(w2) <= ring_grey(w1),
        RING_WIDTH == 2_500_000_000,
        ICON_SIZE == 64,
{
    assert(w1 * 1_000_000_000 / 2_500_000_000 <= w2 * 1_000_000_000 / 2_500_000_000);
}

/// The light fades outwards: within the lens, what is further from the middle is nowhere
/// brighter.
pub proof fn law_light_fades_outwards(
    size: int,
    d1: int,
    d2: int,
    brightness: int,
    color: IconColor,
)
    requires
        0 <= d1 <= d2,
        brightness >= 0,
        lens_radius(size) > 0,
    ensures
        ({
            let p = lens_pixel(size, d1, brightness, color);
            let q = lens_pixel(size, d2, brightness, color);
            q.r <= p.r && q.g <= p.g && q.b <= p.b
        }),
{
    let lens = lens_radius(size);
    let (p1, p2) = (d1 * ONE / lens, d2 * ONE / lens);
    assert(0 <= d1 * ONE <= d2 * ONE);
    vstd::arithmetic::div_mod::lemma_div_is_ordered(d1 * ONE, d2 * ONE, lens);
    vstd::arithmetic::div_mod::lemma_div_pos_is_pos(d1 * ONE, lens);
    assert(0 <= p1 * p1 <= p2 * p2) by (nonlinear_arith)
        requires
            0 <= p1 <= p2,
    ;
    let (s1, s2) = (p1 * p1 / (ONE as int), p2 * p2 / (ONE as int));
    assert(0 <= s1 <= s2);
    crate::relevance::law_decay_ordered(3 * s1 / 2, 3 * s2 / 2);
    crate::relevance::law_decay_ordered(7 * s1 / 2, 7 * s2 / 2);
    crate::relevance::law_decay_ordered(20 * s1, 20 * s2);
    let (g1, g2) = (glow_at(s1), glow_at(s2));
    let (c1, c2) = (core_at(s1), core_at(s2));
    assert(0 <= g2 <= g1 && 0 <= c2 <= c1);
    assert(0 <= g2 * brightness <= g1 * brightness && 0 <= c2 * brightness <= c1 * brightness)
        by (nonlinear_arith)
        requires
            0 <= g2 <= g1,
            0 <= c2 <= c1,
            brightness >= 0,
    ;
    crate::fixed::lemma_quotient_monotone(g2 * brightness, g1 * brightness, ONE as int);
    crate::fixed::lemma_quotient_monotone(c2 * brightness, c1 * brightness, ONE as int);
    crate::fixed::lemma_quotient_monotone(0, g2 * brightness, ONE as int);
    crate::fixed::lemma_quotient_monotone(0, c2 * brightness, ONE as int);
    let (a1, a2) = (
        crate::fixed::quotient(g1 * brightness, ONE as int),
        crate::fixed::quotient(g2 * brightness, ONE as int),
    );
    let (b1, b2) = (
        crate::fixed::quotient(c1 * brightness, ONE as int),
        crate::fixed::quotient(c2 * brightness, ONE as int),
    );
    lemma_shades(a2, a1, b2, b1, 1_000_000_000, 1_000_000_000);
    lemma_shades(a2, a1, b2, b1, hue(color).1, 700_000_000);
    lemma_shades(a2, a1, b2, b1, hue(color).2, 500_000_000);
}

/// The ring is of a grey with a touch of blue: red and green are alike, and blue is three
/// or four steps above them. It is opaque up to half a pixel from the edge of the picture,
/// which lies two pixels from the border, and fades out over the next pixel.
pub proof fn law_ring_is_bluish_grey(size: int, dist: int)
    requires
        dist >= lens_radius(size),
    ensures
        ({
            let p = ring_pixel(size, dist);
            let edge = size * 500_000_000 - 2_000_000_000;
            &&& p.r == p.g && 25 <= p.r <= 56
            &&& p.r + 3 <= p.b <= p.r + 4
            &&& dist <= edge - 500_000_000 ==> p.a == 255
            &&& dist >= edge + 500_000_000 ==> p.a == 0
            &&& edge - 500_000_000 <= dist <= edge + 500_000_000 ==> p.a == (edge + 500_000_000
                - dist) * 255 / 1_000_000_000
        }),
{
    law_ring_has_a_highlight(dist - lens_radius(size), dist - lens_radius(size));
}

/// The lens is opaque up to half a pixel from its edge and fades out at it; it ends where the
/// ring begins, two and a half pixels within the edge of the picture.
pub proof fn law_lens_fades_at_its_edge(size: int, dist: int, brightness: int, color: IconColor)
    ensures
        ({
            let p = lens_pixel(size, dist, brightness, color);
            let edge = size * 500_000_000 - 4_500_000_000;
            &&& dist <= edge - 500_000_000 ==> p.a == 255
            &&& dist >= edge + 500_000_000 ==> p.a == 0
            &&& edge - 500_000_000 <= dist <= edge + 500_000_000 ==> p.a == (edge + 500_000_000
                - dist) * 255 / 1_000_000_000
        }),
{
}

} // verus!
