use raytracing::color::Color;
use raytracing::noise::noise_permille;
use raytracing::texture::Texture;

fn value_at_f32(x: usize, y: usize, seed: u32) -> f32 {
    noise_permille(x, y, seed) as f32 / 1000.0
}

fn shade_color_f32(r: f32, g: f32, b: f32, shade: f32) -> Color {
    Color::new(
        (r * shade).clamp(0.0, 255.0) as u8,
        (g * shade).clamp(0.0, 255.0) as u8,
        (b * shade).clamp(0.0, 255.0) as u8,
    )
}

#[test]
fn solid_is_one_pixel() {
    let c = Color::new(9, 8, 7);
    let t = Texture::solid(c);
    assert_eq!((t.width(), t.height()), (1, 1));
    assert_eq!(t.texel(0, 0), c);
    assert_eq!(t.texel(5, 9), c);
}

#[test]
fn from_fn_is_row_major() {
    let t = Texture::from_fn(3, 2, |x, y| Color::new(x as u8, y as u8, 0));
    assert_eq!((t.width(), t.height()), (3, 2));
    for y in 0..2 {
        for x in 0..3 {
            assert_eq!(t.texel(x, y), Color::new(x as u8, y as u8, 0));
        }
    }
}

#[test]
fn texel_clamps_to_last_row_and_column() {
    let t = Texture::from_fn(3, 2, |x, y| Color::new(x as u8, y as u8, 0));
    assert_eq!(t.texel(7, 0), Color::new(2, 0, 0));
    assert_eq!(t.texel(1, 9), Color::new(1, 1, 0));
    assert_eq!(t.texel(usize::MAX, usize::MAX), Color::new(2, 1, 0));
}

#[test]
fn checkerboard_zero_cells_is_one_cell() {
    let a = Color::new(235, 235, 235);
    let b = Color::new(35, 35, 40);
    let t = Texture::checkerboard(0, a, b);
    assert_eq!((t.width(), t.height()), (32, 32));
    for y in 0..32 {
        for x in 0..32 {
            assert_eq!(t.texel(x, y), a);
        }
    }
}

#[test]
fn checkerboard_alternates_cells() {
    let a = Color::new(235, 235, 235);
    let b = Color::new(35, 35, 40);
    let t = Texture::checkerboard(4, a, b);
    assert_eq!((t.width(), t.height()), (128, 128));
    assert_eq!(t.texel(0, 0), a);
    assert_eq!(t.texel(31, 31), a);
    assert_eq!(t.texel(32, 0), b);
    assert_eq!(t.texel(0, 32), b);
    assert_eq!(t.texel(32, 32), a);
    assert_eq!(t.texel(127, 0), b);
    assert_eq!(t.texel(127, 127), a);
    assert_eq!(t.texel(500, 0), b);
}

#[test]
fn checkerboard_matches_cell_formula() {
    let a = Color::new(1, 1, 1);
    let b = Color::new(2, 2, 2);
    let cells = 3;
    let t = Texture::checkerboard(cells, a, b);
    let resolution = cells * 32;
    for y in 0..resolution {
        for x in 0..resolution {
            let cell_x = (x * cells) / resolution;
            let cell_y = (y * cells) / resolution;
            let expected = if (cell_x + cell_y) % 2 == 0 { a } else { b };
            assert_eq!(t.texel(x, y), expected);
        }
    }
}

#[test]
fn grass_matches_float_shading() {
    let t = Texture::grass();
    assert_eq!((t.width(), t.height()), (64, 64));
    for y in 0..64 {
        for x in 0..64 {
            let n = value_at_f32(x, y, 0xA17F);
            let blade = if (x * 7) % 11 == 0 { 0.15 } else { 0.0 };
            let shade = 0.85 + n * 0.3 - blade;
            assert_eq!(t.texel(x, y), shade_color_f32(70.0, 150.0, 60.0, shade), "pixel {x},{y}");
        }
    }
}

#[test]
fn grass_every_noise_level_matches_float_shading() {
    for k in 0..1000u32 {
        for blade in [0u32, 1500] {
            let exact = raytracing::noise::shade_color(70, 150, 60, 8500 + 3 * k - blade);
            let n = k as f32 / 1000.0;
            let shade = 0.85 + n * 0.3 - if blade == 0 { 0.0 } else { 0.15 };
            assert_eq!(exact, shade_color_f32(70.0, 150.0, 60.0, shade), "level {k}");
        }
        let exact = raytracing::noise::shade_color(140, 140, 148, 8500 + 3 * k);
        let n = k as f32 / 1000.0;
        assert_eq!(exact, shade_color_f32(140.0, 140.0, 148.0, 0.85 + n * 0.3), "level {k}");
    }
}

#[test]
fn stone_bricks_matches_float_shading() {
    let t = Texture::stone_bricks();
    assert_eq!((t.width(), t.height()), (64, 64));
    let brick_w = 16;
    let brick_h = 8;
    for y in 0..64 {
        for x in 0..64 {
            let row = y / brick_h;
            let offset = if row % 2 == 0 { 0 } else { brick_w / 2 };
            let bx = (x + offset) % brick_w;
            let by = y % brick_h;
            let is_mortar = bx == 0 || by == 0;
            let is_accent = !is_mortar && bx == brick_w / 2 && by == brick_h / 2;
            let n = value_at_f32(x, y, 0x57E11);
            let expected = if is_accent {
                Color::new(90, 210, 225)
            } else if is_mortar {
                Color::new(55, 55, 62)
            } else {
                shade_color_f32(140.0, 140.0, 148.0, 0.85 + n * 0.3)
            };
            assert_eq!(t.texel(x, y), expected, "pixel {x},{y}");
        }
    }
}

#[test]
fn stone_bricks_accent_at_brick_centers() {
    let t = Texture::stone_bricks();
    let accent = Color::new(90, 210, 225);
    let mortar = Color::new(55, 55, 62);
    assert_eq!(t.texel(8, 4), accent);
    assert_eq!(t.texel(24, 4), accent);
    assert_eq!(t.texel(0, 12), accent);
    assert_eq!(t.texel(16, 12), accent);
    assert_eq!(t.texel(0, 0), mortar);
    assert_eq!(t.texel(5, 8), mortar);
    assert_eq!(t.texel(8, 9), mortar);
}

#[test]
fn grass_stripes_are_vertical() {
    let t = Texture::grass();
    for x in 0..64 {
        let darker = (x * 7) % 11 == 0;
        for y in 0..64 {
            let n = value_at_f32(x, y, 0xA17F);
            let shade = 0.85 + n * 0.3 - if darker { 0.15 } else { 0.0 };
            assert_eq!(t.texel(x, y), shade_color_f32(70.0, 150.0, 60.0, shade), "pixel {x},{y}");
        }
    }
    assert_eq!((0..64).filter(|x| (x * 7) % 11 == 0).collect::<Vec<usize>>(), vec![0, 11, 22, 33, 44, 55]);
}

#[test]
fn plank_seams_every_sixteenth_column() {
    let seam = Color::new(55, 38, 24);
    for x in 0..64 {
        let expected = if x % 16 == 0 { Some(seam) } else { None };
        assert_eq!(Texture::plank_seam(x), expected);
    }
}
