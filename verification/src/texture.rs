use vstd::prelude::*;

use crate::color::Color;
use crate::noise::{noise_permille, shade_color, spec_noise_permille, spec_shade_color};
use crate::ppm::{
    lemma_token_span_bounds, nth_token, parse_usize, ppm_data_start, ppm_magic, ppm_outcome,
    raster_pixel, read_token, result_is, PpmError,
};

verus! {

/// The element at column `x` and row `y` of a row-major grid `width` wide.
pub open spec fn grid_at(s: Seq<Color>, width: int, x: int, y: int) -> Color {
    s[y * width + x]
}

/// Side of the square procedural textures, in pixels.
pub const PROCEDURAL_RESOLUTION: usize = 64;

/// Seed of the surface noise of the grass texture.
pub const GRASS_SEED: u32 = 0xA17F;

/// Seed of the surface noise of the stone brick texture.
pub const STONE_SEED: u32 = 0x57E11;

/// A 2D texture: a `width` x `height` grid of colors stored row by row.
#[derive(Debug)]
pub struct Texture {
    width: usize,
    height: usize,
    pixels: Vec<Color>,
}

/// Number of cells per side of a checkerboard: at least one.
pub open spec fn checker_cells(cells: usize) -> nat {
    if cells == 0 {
        1
    } else {
        cells as nat
    }
}

/// Side of a checkerboard texture in pixels: 32 pixels per cell.
pub open spec fn checker_resolution(cells: usize) -> nat {
    checker_cells(cells) * 32
}

/// Color of pixel `(x, y)` of a checkerboard: the pixel lies in the 32 x 32 cell
/// `(x / 32, y / 32)`, and cells alternate between `a` and `b` like a chessboard.
pub open spec fn checker_color(a: Color, b: Color, x: int, y: int) -> Color {
    if (x / 32 + y / 32) % 2 == 0 {
        a
    } else {
        b
    }
}

/// Whether column `x` of the grass texture is one of the darker vertical stripes.
pub open spec fn is_grass_blade(x: usize) -> bool {
    (x * 7) % 11 == 0
}

/// Shade of pixel `(x, y)` of the grass texture, in ten-thousandths:
/// 0.85 plus 0.3 times the noise, minus 0.15 on a darker stripe.
pub open spec fn grass_shade(x: usize, y: usize) -> u32 {
    (8500 + 3 * spec_noise_permille(x, y, GRASS_SEED) - if is_grass_blade(x) {
        1500int
    } else {
        0int
    }) as u32
}

/// Color of pixel `(x, y)` of the grass texture: base green (70, 150, 60) shaded.
pub open spec fn grass_color(x: usize, y: usize) -> Color {
    spec_shade_color(70, 150, 60, grass_shade(x, y))
}

/// Horizontal position of pixel `(x, y)` inside its brick: odd brick rows are
/// shifted by half a brick.
pub open spec fn brick_x(x: usize, y: usize) -> int {
    (x + if (y / 8) % 2 == 0 {
        0int
    } else {
        8int
    }) % 16
}

/// Vertical position of pixel `(x, y)` inside its brick.
pub open spec fn brick_y(y: usize) -> int {
    (y % 8) as int
}

/// Mortar lines: the first column and the first row of every 16 x 8 brick.
pub open spec fn is_mortar(x: usize, y: usize) -> bool {
    brick_x(x, y) == 0 || brick_y(y) == 0
}

/// The accent pixel at the center of every brick.
pub open spec fn is_accent(x: usize, y: usize) -> bool {
    !is_mortar(x, y) && brick_x(x, y) == 8 && brick_y(y) == 4
}

/// Color of pixel `(x, y)` of the stone brick texture.
pub open spec fn stone_color(x: usize, y: usize) -> Color {
    if is_accent(x, y) {
        Color { r: 90, g: 210, b: 225 }
    } else if is_mortar(x, y) {
        Color { r: 55, g: 55, b: 62 }
    } else {
        spec_shade_color(140, 140, 148, (8500 + 3 * spec_noise_permille(x, y, STONE_SEED)) as u32)
    }
}

/// A checkerboard asked for `cells` cells per side has exactly that many, each
/// 32 pixels wide; only a request for no cells is raised to one cell.
pub proof fn lemma_checker_size(cells: usize)
    ensures
        cells >= 1 ==> checker_resolution(cells) == cells * 32,
        cells == 0 ==> checker_resolution(cells) == 32,
        checker_resolution(cells) / 32 == (if cells == 0 {
            1
        } else {
            cells as int
        }),
{
}

/// On a checkerboard of two different colors, the cells to the right of and
/// below any cell have the other color.
pub proof fn lemma_checker_neighbors_differ(a: Color, b: Color, x: int, y: int)
    requires
        a != b,
        0 <= x,
        0 <= y,
    ensures
        checker_color(a, b, x, y) != checker_color(a, b, x + 32, y),
        checker_color(a, b, x, y) != checker_color(a, b, x, y + 32),
{
    assert((x + 32) / 32 == x / 32 + 1);
    assert((y + 32) / 32 == y / 32 + 1);
}

proof fn lemma_grid_index(w: int, h: int, x: int, y: int)
    requires
        0 <= x < w,
        0 <= y < h,
    ensures
        0 <= y * w + x < h * w,
        y * w + x + 1 <= h * w,
{
    assert(0 <= y * w + x < h * w) by (nonlinear_arith)
        requires
            0 <= x < w,
            0 <= y < h,
    ;
}

/// Splitting the pixel grid into 32 x 32 cells: `(x * c) / (c * 32) == x / 32`.
proof fn lemma_checker_cell(x: int, c: int)
    requires
        0 <= x,
        1 <= c,
    ensures
        (x * c) / (c * 32) == x / 32,
{
    vstd::arithmetic::div_mod::lemma_div_denominator(x * c, c, 32);
    assert(x * c == c * x) by (nonlinear_arith);
    vstd::arithmetic::div_mod::lemma_div_multiples_vanish(x, c);
    assert(x * c >= 0) by (nonlinear_arith)
        requires
            0 <= x,
            1 <= c,
    ;
}

impl Texture {
    #[verifier::type_invariant]
    spec fn layout(self) -> bool {
        self.pixels@.len() == self.width * self.height
    }

    /// Width in pixels.
    pub closed spec fn spec_width(&self) -> nat {
        self.width as nat
    }

    /// Height in pixels.
    pub closed spec fn spec_height(&self) -> nat {
        self.height as nat
    }

    /// The pixels, row by row.
    pub closed spec fn spec_pixels(&self) -> Seq<Color> {
        self.pixels@
    }

    /// The pixel in column `x` and row `y`.
    pub open spec fn pixel(&self, x: int, y: int) -> Color {
        grid_at(self.spec_pixels(), self.spec_width() as int, x, y)
    }

    /// Builds a `width` x `height` texture whose pixel `(x, y)` is `f(x, y)`.
    pub fn from_fn<F: Fn(usize, usize) -> Color>(width: usize, height: usize, f: F) -> (t: Texture)
        requires
            width * height <= usize::MAX,
            forall|x: usize, y: usize| x < width && y < height ==> call_requires(f, (x, y)),
        ensures
            t.spec_width() == width,
            t.spec_height() == height,
            t.spec_pixels().len() == width * height,
            forall|x: usize, y: usize|
                x < width && y < height ==> call_ensures(f, (x, y), #[trigger] t.pixel(x as int, y as int)),
    {
        let mut pixels: Vec<Color> = Vec::with_capacity(width * height);
        let mut y: usize = 0;
        while y < height
            invariant
                y <= height,
                width * height <= usize::MAX,
                pixels@.len() == y * width,
                forall|x: usize, y: usize| x < width && y < height ==> call_requires(f, (x, y)),
                forall|xx: usize, yy: usize|
                    xx < width && yy < y ==> call_ensures(
                        f,
                        (xx, yy),
                        #[trigger] grid_at(pixels@, width as int, xx as int, yy as int),
                    ),
            decreases height - y,
        {
            let mut x: usize = 0;
            while x < width
                invariant
                    x <= width,
                    y < height,
                    width * height <= usize::MAX,
                    pixels@.len() == y * width + x,
                    forall|x: usize, y: usize| x < width && y < height ==> call_requires(f, (x, y)),
                    forall|xx: usize, yy: usize|
                        xx < width && yy < y ==> call_ensures(
                            f,
                            (xx, yy),
                            #[trigger] grid_at(pixels@, width as int, xx as int, yy as int),
                        ),
                    forall|xx: usize|
                        xx < x ==> call_ensures(
                            f,
                            (xx, y),
                            #[trigger] grid_at(pixels@, width as int, xx as int, y as int),
                        ),
                decreases width - x,
            {
                proof {
                    lemma_grid_index(width as int, height as int, x as int, y as int);
                }
                let c = f(x, y);
                let ghost old_pixels = pixels@;
                pixels.push(c);
                proof {
                    assert forall|xx: usize, yy: usize| xx < width && yy < y implies call_ensures(
                        f,
                        (xx, yy),
                        #[trigger] grid_at(pixels@, width as int, xx as int, yy as int),
                    ) by {
                        lemma_grid_index(width as int, y as int, xx as int, yy as int);
                        assert(grid_at(pixels@, width as int, xx as int, yy as int) == grid_at(
                            old_pixels,
                            width as int,
                            xx as int,
                            yy as int,
                        ));
                    }
                    assert forall|xx: usize| xx < x + 1 implies call_ensures(
                        f,
                        (xx, y),
                        #[trigger] grid_at(pixels@, width as int, xx as int, y as int),
                    ) by {
                        if xx < x {
                            assert(grid_at(pixels@, width as int, xx as int, y as int) == grid_at(
                                old_pixels,
                                width as int,
                                xx as int,
                                y as int,
                            ));
                        }
                    }
                }
                x = x + 1;
            }
            proof {
                assert(y * width + width == (y + 1) * width) by (nonlinear_arith);
                assert forall|xx: usize, yy: usize| xx < width && yy < y + 1 implies call_ensures(
                    f,
                    (xx, yy),
                    #[trigger] grid_at(pixels@, width as int, xx as int, yy as int),
                ) by {
                    if yy < y {
                    } else {
                        assert(grid_at(pixels@, width as int, xx as int, y as int) == grid_at(
                            pixels@,
                            width as int,
                            xx as int,
                            yy as int,
                        ));
                    }
                }
            }
            y = y + 1;
        }
        assert(height * width == width * height) by (nonlinear_arith);
        Texture { width, height, pixels }
    }

    /// A one-pixel texture of a single color.
    pub fn solid(color: Color) -> (t: Texture)
        ensures
            t.spec_width() == 1,
            t.spec_height() == 1,
            t.spec_pixels() == seq![color],
            t.pixel(0, 0) == color,
    {
        let mut pixels: Vec<Color> = Vec::new();
        pixels.push(color);
        let t = Texture { width: 1, height: 1, pixels };
        assert(t.spec_pixels() =~= seq![color]);
        t
    }

    /// A checkerboard of `cells` x `cells` squares (at least one) of 32 x 32
    /// pixels each, alternating between `a` and `b`, with `a` in the top left corner.
    pub fn checkerboard(cells: usize, a: Color, b: Color) -> (t: Texture)
        requires
            checker_resolution(cells) * checker_resolution(cells) <= usize::MAX,
        ensures
            t.spec_width() == checker_resolution(cells),
            t.spec_height() == checker_resolution(cells),
            t.spec_pixels().len() == checker_resolution(cells) * checker_resolution(cells),
            cells >= 1 ==> t.spec_width() == cells * 32 && t.spec_height() == cells * 32,
            cells == 0 ==> t.spec_width() == 32 && t.spec_height() == 32,
            forall|x: int, y: int|
                0 <= x < checker_resolution(cells) && 0 <= y < checker_resolution(cells)
                    ==> #[trigger] t.pixel(x, y) == checker_color(a, b, x, y),
    {
        let cells = if cells > 1 {
            cells
        } else {
            1
        };
        assert(cells * 32 <= usize::MAX) by (nonlinear_arith)
            requires
                cells >= 1,
                (cells * 32) * (cells * 32) <= usize::MAX,
        ;
        let resolution = cells * 32;
        let t = Texture::from_fn(
            resolution,
            resolution,
            (|x: usize, y: usize| -> (c: Color)
                requires
                    x < resolution,
                    y < resolution,
                    resolution == cells * 32,
                    cells >= 1,
                    resolution * resolution <= usize::MAX,
                ensures
                    c == checker_color(a, b, x as int, y as int),
                {
                    assert(x * cells < resolution * resolution) by (nonlinear_arith)
                        requires
                            x < resolution,
                            resolution == cells * 32,
                            cells >= 1,
                    ;
                    assert(y * cells < resolution * resolution) by (nonlinear_arith)
                        requires
                            y < resolution,
                            resolution == cells * 32,
                            cells >= 1,
                    ;
                    let cell_x = (x * cells) / resolution;
                    let cell_y = (y * cells) / resolution;
                    proof {
                        lemma_checker_cell(x as int, cells as int);
                        lemma_checker_cell(y as int, cells as int);
                    }
                    if (cell_x + cell_y) % 2 == 0 {
                        a
                    } else {
                        b
                    }
                }),
        );
        assert forall|x: int, y: int|
            0 <= x < checker_resolution(cells) && 0 <= y < checker_resolution(cells)
                implies #[trigger] t.pixel(x, y) == checker_color(a, b, x, y) by {
            assert(t.pixel((x as usize) as int, (y as usize) as int) == t.pixel(x, y));
        }
        t
    }

    fn grass_texel(x: usize, y: usize) -> (c: Color)
        requires
            x < PROCEDURAL_RESOLUTION,
            y < PROCEDURAL_RESOLUTION,
        ensures
            c == grass_color(x, y),
    {
        let n = noise_permille(x, y, GRASS_SEED);
        let blade: u32 = if (x * 7) % 11 == 0 {
            1500
        } else {
            0
        };
        shade_color(70, 150, 60, 8500 + 3 * n - blade)
    }

    /// Field grass: a green base with per-pixel noise to suggest blades, plus
    /// some slightly darker vertical stripes.
    pub fn grass() -> (t: Texture)
        ensures
            t.spec_width() == PROCEDURAL_RESOLUTION,
            t.spec_height() == PROCEDURAL_RESOLUTION,
            t.spec_pixels().len() == PROCEDURAL_RESOLUTION * PROCEDURAL_RESOLUTION,
            forall|x: usize, y: usize|
                x < PROCEDURAL_RESOLUTION && y < PROCEDURAL_RESOLUTION ==> #[trigger] t.pixel(
                    x as int,
                    y as int,
                ) == grass_color(x, y),
    {
        let resolution = PROCEDURAL_RESOLUTION;
        Texture::from_fn(resolution, resolution, Texture::grass_texel)
    }

    fn stone_texel(x: usize, y: usize) -> (c: Color)
        requires
            x < PROCEDURAL_RESOLUTION,
            y < PROCEDURAL_RESOLUTION,
        ensures
            c == stone_color(x, y),
    {
        let brick_w: usize = 16;
        let brick_h: usize = 8;
        let row = y / brick_h;
        let offset = if row % 2 == 0 {
            0
        } else {
            brick_w / 2
        };
        let bx = (x + offset) % brick_w;
        let by = y % brick_h;
        let is_mortar = bx == 0 || by == 0;
        let is_accent = !is_mortar && bx == brick_w / 2 && by == brick_h / 2;

        let n = noise_permille(x, y, STONE_SEED);
        if is_accent {
            Color::new(90, 210, 225)
        } else if is_mortar {
            Color::new(55, 55, 62)
        } else {
            shade_color(140, 140, 148, 8500 + 3 * n)
        }
    }

    /// Shrine stone: a brick pattern (16 x 8 bricks, odd rows shifted by half a
    /// brick) with mortar lines, surface noise and a light-blue accent at the
    /// center of every brick.
    pub fn stone_bricks() -> (t: Texture)
        ensures
            t.spec_width() == PROCEDURAL_RESOLUTION,
            t.spec_height() == PROCEDURAL_RESOLUTION,
            t.spec_pixels().len() == PROCEDURAL_RESOLUTION * PROCEDURAL_RESOLUTION,
            forall|x: usize, y: usize|
                x < PROCEDURAL_RESOLUTION && y < PROCEDURAL_RESOLUTION ==> #[trigger] t.pixel(
                    x as int,
                    y as int,
                ) == stone_color(x, y),
    {
        let resolution = PROCEDURAL_RESOLUTION;
        Texture::from_fn(resolution, resolution, Texture::stone_texel)
    }

    /// The color of the dark line at the joint between wooden planks, when
    /// column `x` lies on one: every 16th column, starting with the first.
    pub fn plank_seam(x: usize) -> (c: Option<Color>)
        ensures
            c == if x % 16 == 0 {
                Some(Color { r: 55, g: 38, b: 24 })
            } else {
                None::<Color>
            },
    {
        let plank_w: usize = 16;
        if x % plank_w == 0 {
            Some(Color::new(55, 38, 24))
        } else {
            None
        }
    }

    /// Width in pixels.
    pub fn width(&self) -> (w: usize)
        ensures
            w == self.spec_width(),
            self.spec_pixels().len() == self.spec_width() * self.spec_height(),
    {
        proof {
            use_type_invariant(self);
        }
        self.width
    }

    /// Height in pixels.
    pub fn height(&self) -> (h: usize)
        ensures
            h == self.spec_height(),
            self.spec_pixels().len() == self.spec_width() * self.spec_height(),
    {
        proof {
            use_type_invariant(self);
        }
        self.height
    }

    /// The pixel in column `x` and row `y`, with coordinates past the last
    /// column or row clamped to it.
    pub fn texel(&self, x: usize, y: usize) -> (c: Color)
        requires
            self.spec_width() > 0,
            self.spec_height() > 0,
        ensures
            c == self.pixel(
                if x < self.spec_width() {
                    x as int
                } else {
                    self.spec_width() - 1
                },
                if y < self.spec_height() {
                    y as int
                } else {
                    self.spec_height() - 1
                },
            ),
    {
        proof {
            use_type_invariant(self);
        }
        let x = if x < self.width - 1 {
            x
        } else {
            self.width - 1
        };
        let y = if y < self.height - 1 {
            y
        } else {
            self.height - 1
        };
        proof {
            assert(self.pixels@.len() == self.pixels.len());
            lemma_grid_index(self.width as int, self.height as int, x as int, y as int);
            assert(0 <= y * self.width <= y * self.width + x) by (nonlinear_arith)
                requires
                    0 <= x,
                    0 <= y,
                    0 <= self.width,
            ;
            assert(self.height * self.width == self.width * self.height) by (nonlinear_arith);
        }
        self.pixels[y * self.width + x]
    }
}

impl Texture {
    /// Reads a binary PPM (P6) image: the header tokens `P6`, width, height and
    /// maximum channel value, then one separator byte, then the pixels as
    /// red, green, blue bytes, row by row.
    pub fn from_ppm_bytes(data: &[u8]) -> (r: Result<Texture, PpmError>)
        ensures
            result_is(&r, ppm_outcome(data@)),
            r matches Ok(t) ==> {
                &&& t.spec_width() >= 1
                &&& t.spec_height() >= 1
                &&& t.spec_pixels().len() == t.spec_width() * t.spec_height()
            },
    {
        let ghost d = data@;
        let mut pos: usize = 0;
        proof {
            lemma_token_span_bounds(d, 0);
        }
        let magic = read_token(data, &mut pos);
        assert(magic@ == nth_token(d, 0));
        if !(magic.len() == 2 && magic[0] == 0x50u8 && magic[1] == 0x36u8) {
            assert(magic@ != ppm_magic());
            return Err(PpmError::BadMagic(magic));
        }
        assert(magic@ =~= ppm_magic());
        proof {
            lemma_token_span_bounds(d, pos as int);
        }
        let width_token = read_token(data, &mut pos);
        assert(width_token@ == nth_token(d, 1));
        let width = match parse_usize(width_token.as_slice()) {
            Some(w) => w,
            None => return Err(PpmError::BadWidth),
        };
        if width == 0 {
            return Err(PpmError::BadWidth);
        }
        proof {
            lemma_token_span_bounds(d, pos as int);
        }
        let height_token = read_token(data, &mut pos);
        assert(height_token@ == nth_token(d, 2));
        let height = match parse_usize(height_token.as_slice()) {
            Some(h) => h,
            None => return Err(PpmError::BadHeight),
        };
        if height == 0 {
            return Err(PpmError::BadHeight);
        }
        proof {
            lemma_token_span_bounds(d, pos as int);
        }
        let maxval_token = read_token(data, &mut pos);
        assert(maxval_token@ == nth_token(d, 3));
        if parse_usize(maxval_token.as_slice()).is_none() {
            return Err(PpmError::BadMaxval);
        }
        assert(pos as int + 1 == ppm_data_start(d));
        // The raster starts one byte past the header.
        if pos == data.len() {
            return Err(PpmError::Truncated);
        }
        let start = pos + 1;
        let available = data.len() - start;
        let count = match width.checked_mul(height) {
            Some(c) => c,
            None => return Err(PpmError::Truncated),
        };
        let byte_count = match count.checked_mul(3) {
            Some(n) => n,
            None => return Err(PpmError::Truncated),
        };
        if available < byte_count {
            return Err(PpmError::Truncated);
        }
        let ghost pixels_spec = Seq::new(count as nat, |i: int| raster_pixel(d, start as int, i));
        let mut pixels: Vec<Color> = Vec::with_capacity(count);
        let mut i: usize = 0;
        while i < count
            invariant
                i <= count,
                d == data@,
                count * 3 == byte_count,
                start + byte_count <= data.len(),
                pixels_spec == Seq::new(count as nat, |i: int| raster_pixel(d, start as int, i)),
                pixels@ == pixels_spec.take(i as int),
            decreases count - i,
        {
            let offset = start + 3 * i;
            pixels.push(Color::new(data[offset], data[offset + 1], data[offset + 2]));
            i = i + 1;
            assert(pixels@ =~= pixels_spec.take(i as int));
        }
        assert(pixels@ =~= pixels_spec);
        assert(width * height == count);
        Ok(Texture { width, height, pixels })
    }
}

} // verus!
