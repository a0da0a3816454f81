use vstd::prelude::*;
use vstd::arithmetic::div_mod::{lemma_fundamental_div_mod, lemma_fundamental_div_mod_converse};
use image::RgbImage;
use crate::color::Color;

verus! {

/// A square palette texture: an RGB image of the `image` crate, which callers
/// read, encode or save through the field.
#[verifier::external_body]
pub struct Texture {
    pub image: RgbImage,
}

/// The pixels of a texture, keyed by `(x, y)`, as red, green and blue bytes.
pub uninterp spec fn raster_pixels(t: Texture) -> Map<(u32, u32), (u8, u8, u8)>;

/// The width and height of a texture.
pub uninterp spec fn raster_size(t: Texture) -> (u32, u32);

/// Every position of a `width` by `height` image, each black.
pub open spec fn blank(width: u32, height: u32) -> Map<(u32, u32), (u8, u8, u8)> {
    Map::new(|p: (u32, u32)| p.0 < width && p.1 < height, |p: (u32, u32)| (0u8, 0u8, 0u8))
}

/// Relies on `ImageBuffer::new`: an image of the given size whose channels are
/// all zero. It panics when the byte count `3 * width * height` overflows `usize`.
#[verifier::external_body]
fn new_raster(width: u32, height: u32) -> (r: Texture)
    requires
        3 * width * height <= usize::MAX,
    ensures
        raster_size(r) == (width, height),
        raster_pixels(r) == blank(width, height),
{
    Texture { image: RgbImage::new(width, height) }
}

/// Relies on `ImageBuffer::put_pixel`: overwrites the pixel at `(x, y)` and no
/// other. It panics when `(x, y)` lies outside the image.
#[verifier::external_body]
fn put_pixel(t: &mut Texture, x: u32, y: u32, c: Color)
    requires
        x < raster_size(*old(t)).0,
        y < raster_size(*old(t)).1,
    ensures
        raster_size(*final(t)) == raster_size(*old(t)),
        raster_pixels(*final(t)) == raster_pixels(*old(t)).insert((x, y), c.rgb()),
{
    t.image.put_pixel(x, y, image::Rgb([c.r, c.g, c.b]))
}

/// The least `k >= l` with `k * k >= n` (the search stops at `n` at the latest).
pub open spec fn ceil_sqrt_from(n: nat, l: nat) -> nat
    decreases n - l,
{
    if l * l >= n || l >= n {
        l
    } else {
        ceil_sqrt_from(n, l + 1)
    }
}

/// The least `l` with `l * l >= n`: the square root of `n`, rounded up.
pub open spec fn ceil_sqrt(n: nat) -> nat {
    ceil_sqrt_from(n, 0)
}

/// The number of tiles along each side of the grid that holds `n` colors.
pub fn grid_side(n: usize) -> (l: u64)
    ensures
        l == ceil_sqrt(n as nat),
        l * l >= n,
        n > 0 ==> l > 0,
{
    let mut l: u64 = 0;
    while (l as u128) * (l as u128) < n as u128
        invariant
            l <= n,
            l <= 0x1_0000_0000,
            l * l <= 0x1_0000_0000_0000_0000,
            ceil_sqrt_from(n as nat, l as nat) == ceil_sqrt(n as nat),
        decreases n - l,
    {
        assert(l < n && l < 0x1_0000_0000) by (nonlinear_arith)
            requires
                l * l < n,
                n <= usize::MAX,
                usize::MAX <= u64::MAX,
        ;
        assert((l + 1) * (l + 1) <= 0x1_0000_0000_0000_0000) by (nonlinear_arith)
            requires
                l < 0x1_0000_0000,
        ;
        l = l + 1;
    }
    l
}

/// The index of the tile that holds pixel `(x, y)`, for `l` tiles a row of
/// `size` pixels each.
pub open spec fn tile_index(l: nat, size: nat, x: nat, y: nat) -> nat {
    (y / size) * l + x / size
}

/// The color of pixel `(x, y)`: that of its tile, or black where no color is left.
pub open spec fn texture_pixel(colors: Seq<Color>, size: nat, x: nat, y: nat) -> (u8, u8, u8) {
    let i = tile_index(ceil_sqrt(colors.len()), size, x, y);
    if i < colors.len() {
        colors[i as int].rgb()
    } else {
        (0u8, 0u8, 0u8)
    }
}

/// The side in pixels of the texture of `n` colors in tiles of `size` pixels.
pub open spec fn texture_side(n: nat, size: nat) -> nat {
    ceil_sqrt(n) * size
}

/// Every pixel of the texture of `colors` in tiles of `size` pixels.
pub open spec fn texture_pixels(colors: Seq<Color>, size: nat) -> Map<(u32, u32), (u8, u8, u8)> {
    let side = texture_side(colors.len(), size);
    Map::new(
        |p: (u32, u32)| p.0 < side && p.1 < side,
        |p: (u32, u32)| texture_pixel(colors, size, p.0 as nat, p.1 as nat),
    )
}

/// The texture while tile `i` is being painted: tiles before `i` are done, and in
/// tile `i` the columns left of `x`, and column `x` above row `y`.
pub open spec fn painted(colors: Seq<Color>, size: nat, i: nat, x: int, y: int) -> Map<
    (u32, u32),
    (u8, u8, u8),
> {
    let side = texture_side(colors.len(), size);
    let l = ceil_sqrt(colors.len());
    Map::new(
        |p: (u32, u32)| p.0 < side && p.1 < side,
        |p: (u32, u32)|
            {
                let t = tile_index(l, size, p.0 as nat, p.1 as nat);
                if t < i || (t == i && (p.0 < x || (p.0 == x && p.1 < y))) {
                    texture_pixel(colors, size, p.0 as nat, p.1 as nat)
                } else {
                    (0u8, 0u8, 0u8)
                }
            },
    )
}

/// Pixel `(x, y)` lies in tile `i` exactly when it lies in the square of that
/// tile: column `i % l`, row `i / l`.
proof fn lemma_tile(l: int, size: int, x: int, y: int, i: int)
    requires
        l > 0,
        size > 0,
        0 <= x < l * size,
        0 <= y,
        0 <= i,
    ensures
        (y / size) * l + x / size == i <==> ((i % l) * size <= x < (i % l) * size + size
            && (i / l) * size <= y < (i / l) * size + size),
{
    lemma_fundamental_div_mod(x, size);
    lemma_fundamental_div_mod(y, size);
    lemma_fundamental_div_mod(i, l);
    let a = x / size;
    let b = y / size;
    assert(0 <= x % size < size);
    assert(0 <= y % size < size);
    assert(0 <= i % l < l);
    assert(a < l) by (nonlinear_arith)
        requires
            x == size * a + x % size,
            0 <= x % size,
            x < l * size,
            size > 0,
    ;
    assert(0 <= a && 0 <= b) by (nonlinear_arith)
        requires
            x == size * a + x % size,
            y == size * b + y % size,
            x % size < size,
            y % size < size,
            0 <= x,
            0 <= y,
            size > 0,
    ;
    if b * l + a == i {
        lemma_fundamental_div_mod_converse(i, l, b, a);
        assert(a * size <= x < a * size + size) by (nonlinear_arith)
            requires
                x == size * a + x % size,
                0 <= x % size < size,
        ;
        assert(b * size <= y < b * size + size) by (nonlinear_arith)
            requires
                y == size * b + y % size,
                0 <= y % size < size,
        ;
    }
    if (i % l) * size <= x < (i % l) * size + size && (i / l) * size <= y < (i / l) * size
        + size {
        lemma_fundamental_div_mod_converse(x, size, i % l, x - (i % l) * size);
        lemma_fundamental_div_mod_converse(y, size, i / l, y - (i / l) * size);
        assert(i == (i / l) * l + i % l) by (nonlinear_arith)
            requires
                i == l * (i / l) + i % l,
        ;
    }
}

/// Color `i` fills its tile: the `size` by `size` square at column `i % l` and
/// row `i / l` of the grid, where `l` is the rounded-up square root of the number
/// of colors.
pub proof fn lemma_tile_placement(colors: Seq<Color>, size: nat, i: int, x: u32, y: u32)
    requires
        0 <= i < colors.len(),
        (i % ceil_sqrt(colors.len()) as int) * size <= x < (i % ceil_sqrt(colors.len()) as int)
            * size + size,
        (i / ceil_sqrt(colors.len()) as int) * size <= y < (i / ceil_sqrt(colors.len()) as int)
            * size + size,
    ensures
        texture_pixels(colors, size).contains_key((x, y)),
        texture_pixels(colors, size)[(x, y)] == colors[i].rgb(),
{
    let n = colors.len();
    let l = ceil_sqrt(n) as int;
    lemma_ceil_sqrt(n);
    let col = i % l;
    let row = i / l;
    assert(0 <= col < l && 0 <= row < l) by (nonlinear_arith)
        requires
            col == i % l,
            row == i / l,
            0 <= i < n,
            n <= l * l,
            l > 0,
    {
        vstd::arithmetic::div_mod::lemma_mod_bound(i, l);
        vstd::arithmetic::div_mod::lemma_div_is_ordered(i, l * l - 1, l);
        vstd::arithmetic::div_mod::lemma_fundamental_div_mod_converse(l * l - 1, l, l - 1, l - 1);
        vstd::arithmetic::div_mod::lemma_div_pos_is_pos(i, l);
    }
    assert(x < l * size && y < l * size) by (nonlinear_arith)
        requires
            col * size <= x < col * size + size,
            row * size <= y < row * size + size,
            0 <= col < l,
            0 <= row < l,
    ;
    assert(size > 0) by (nonlinear_arith)
        requires
            col * size <= x < col * size + size,
    ;
    lemma_tile(l, size as int, x as int, y as int, i);
}

/// `ceil_sqrt(n)` is at least 1 when `n` is, and its square covers `n`.
proof fn lemma_ceil_sqrt(n: nat)
    ensures
        ceil_sqrt(n) * ceil_sqrt(n) >= n,
        n > 0 ==> ceil_sqrt(n) > 0,
{
    lemma_ceil_sqrt_from(n, 0);
    if n > 0 && ceil_sqrt(n) == 0 {
        assert(ceil_sqrt(n) * ceil_sqrt(n) == 0);
    }
}

proof fn lemma_ceil_sqrt_from(n: nat, l: nat)
    ensures
        ceil_sqrt_from(n, l) * ceil_sqrt_from(n, l) >= n,
        ceil_sqrt_from(n, l) >= l,
    decreases n - l,
{
    if l * l >= n || l >= n {
        if l >= n {
            assert(l * l >= n) by (nonlinear_arith)
                requires
                    l >= n,
            ;
        }
    } else {
        lemma_ceil_sqrt_from(n, l + 1);
    }
}

/// Lays the colors out as square tiles of `size` pixels, in rows of
/// `ceil_sqrt(colors.len())` tiles, first row first; pixels past the last color
/// stay black.
pub fn generate_texture(colors: &[Color], size: u32) -> (t: Texture)
    requires
        texture_side(colors@.len(), size as nat) <= u32::MAX,
        3 * texture_side(colors@.len(), size as nat) * texture_side(colors@.len(), size as nat)
            <= usize::MAX,
    ensures
        raster_size(t) == (
            texture_side(colors@.len(), size as nat) as u32,
            texture_side(colors@.len(), size as nat) as u32,
        ),
        raster_pixels(t) == texture_pixels(colors@, size as nat),
{
    let n = colors.len();
    let l = grid_side(n);
    let side: u32 = (l * size as u64) as u32;
    let ghost cs = colors@;
    let ghost sz = size as nat;
    let mut t = new_raster(side, side);
    proof {
        if l > 0 {
            assert(0int % (l as int) == 0 && 0int / (l as int) == 0) by (nonlinear_arith)
                requires
                    l > 0,
            ;
        }
        assert(raster_pixels(t) =~= painted(
            cs,
            sz,
            0,
            (0int % (l as int)) * size,
            (0int / (l as int)) * size,
        ));
    }
    let mut i: usize = 0;
    while i < n
        invariant
            i <= n,
            n == cs.len(),
            cs == colors@,
            sz == size,
            l == ceil_sqrt(n as nat),
            l * l >= n,
            n > 0 ==> l > 0,
            side == l * size,
            side == texture_side(n as nat, sz),
            raster_size(t) == (side, side),
            raster_pixels(t) == painted(cs, sz, i as nat, ((i as int) % (l as int)) * size, ((
                i as int) / (l as int)) * size),
        decreases n - i,
    {
        let col = (i as u64) % l;
        let row = (i as u64) / l;
        assert(col < l && row < l && col * size + size <= side && row * size + size <= side)
            by (nonlinear_arith)
            requires
                col == (i as int) % (l as int),
                row == (i as int) / (l as int),
                i < n,
                n <= l * l,
                l > 0,
                side == l * size,
        {
            vstd::arithmetic::div_mod::lemma_mod_bound(i as int, l as int);
            vstd::arithmetic::div_mod::lemma_div_is_ordered(i as int, l * l - 1, l as int);
            vstd::arithmetic::div_mod::lemma_fundamental_div_mod_converse(
                l * l - 1, l as int, l - 1, l - 1);
        }
        let x0: u32 = (col * size as u64) as u32;
        let y0: u32 = (row * size as u64) as u32;
        let mut x: u32 = x0;
        while x < x0 + size
            invariant
                i < n,
                n == cs.len(),
                cs == colors@,
                sz == size,
                l == ceil_sqrt(n as nat),
                l > 0,
                side == l * size,
                side == texture_side(n as nat, sz),
                col == (i as int) % (l as int),
                row == (i as int) / (l as int),
                x0 == col * size,
                y0 == row * size,
                x0 + size <= side,
                y0 + size <= side,
                x0 <= x <= x0 + size,
                raster_size(t) == (side, side),
                raster_pixels(t) == painted(cs, sz, i as nat, x as int, y0 as int),
            decreases x0 + size - x,
        {
            let mut y: u32 = y0;
            while y < y0 + size
                invariant
                    i < n,
                    n == cs.len(),
                    cs == colors@,
                    sz == size,
                    l == ceil_sqrt(n as nat),
                    l > 0,
                    side == l * size,
                    side == texture_side(n as nat, sz),
                    col == (i as int) % (l as int),
                    row == (i as int) / (l as int),
                    x0 == col * size,
                    y0 == row * size,
                    x0 + size <= side,
                    y0 + size <= side,
                    x0 <= x < x0 + size,
                    y0 <= y <= y0 + size,
                    raster_size(t) == (side, side),
                    raster_pixels(t) == painted(cs, sz, i as nat, x as int, y as int),
                decreases y0 + size - y,
            {
                let ghost before = raster_pixels(t);
                put_pixel(&mut t, x, y, colors[i]);
                proof {
                    lemma_tile(l as int, size as int, x as int, y as int, i as int);
                    assert(raster_pixels(t) =~= painted(cs, sz, i as nat, x as int, y + 1));
                }
                y = y + 1;
            }
            proof {
                assert forall|p: (u32, u32)|
                    p.0 < side && p.1 < side implies #[trigger] painted(
                    cs,
                    sz,
                    i as nat,
                    x as int,
                    y0 + size,
                )[p] == painted(cs, sz, i as nat, x + 1, y0 as int)[p] by {
                    lemma_tile(l as int, size as int, p.0 as int, p.1 as int, i as int);
                }
                assert(painted(cs, sz, i as nat, x as int, y0 + size) =~= painted(
                    cs,
                    sz,
                    i as nat,
                    x + 1,
                    y0 as int,
                ));
            }
            x = x + 1;
        }
        proof {
            let nx = ((i + 1) as int % (l as int)) * size;
            let ny = ((i + 1) as int / (l as int)) * size;
            assert forall|p: (u32, u32)|
                p.0 < side && p.1 < side implies #[trigger] painted(
                cs,
                sz,
                i as nat,
                x0 + size,
                y0 as int,
            )[p] == painted(cs, sz, (i + 1) as nat, nx, ny)[p] by {
                lemma_tile(l as int, size as int, p.0 as int, p.1 as int, i as int);
                lemma_tile(l as int, size as int, p.0 as int, p.1 as int, i + 1);
            }
            assert(painted(cs, sz, i as nat, x0 + size, y0 as int) =~= painted(
                cs,
                sz,
                (i + 1) as nat,
                nx,
                ny,
            ));
        }
        i = i + 1;
    }
    assert(raster_pixels(t) =~= texture_pixels(cs, sz));
    t
}

} // verus!
