use raytracing::color::Color;
use raytracing::ppm::{parse_usize, read_token, PpmError};
use raytracing::texture::Texture;

fn ppm(header: &str, raster: &[u8]) -> Vec<u8> {
    let mut v = header.as_bytes().to_vec();
    v.extend_from_slice(raster);
    v
}

#[test]
fn read_token_skips_whitespace_and_comments() {
    let data = b"  P6\n# a comment\n  12 \t34\n#\n255\nxyz";
    let mut pos = 0;
    assert_eq!(read_token(data, &mut pos), b"P6".to_vec());
    assert_eq!(pos, 4);
    assert_eq!(read_token(data, &mut pos), b"12".to_vec());
    assert_eq!(read_token(data, &mut pos), b"34".to_vec());
    assert_eq!(read_token(data, &mut pos), b"255".to_vec());
    assert_eq!(read_token(data, &mut pos), b"xyz".to_vec());
    assert_eq!(pos, data.len());
    assert_eq!(read_token(data, &mut pos), Vec::<u8>::new());
    assert_eq!(pos, data.len());
}

#[test]
fn read_token_comment_to_end_of_data() {
    let data = b"  # only a comment";
    let mut pos = 0;
    assert_eq!(read_token(data, &mut pos), Vec::<u8>::new());
    assert_eq!(pos, data.len());
}

#[test]
fn read_token_hash_inside_token_is_kept() {
    let data = b"ab#cd ef";
    let mut pos = 0;
    assert_eq!(read_token(data, &mut pos), b"ab#cd".to_vec());
    assert_eq!(pos, 5);
}

#[test]
fn parse_usize_accepts_what_std_accepts() {
    for s in ["0", "7", "+42", "00012", "4294967295"] {
        assert_eq!(parse_usize(s.as_bytes()), s.parse::<usize>().ok(), "{s}");
    }
    assert_eq!(parse_usize(usize::MAX.to_string().as_bytes()), Some(usize::MAX));
}

#[test]
fn parse_usize_rejects_what_std_rejects() {
    let too_big = format!("{}0", usize::MAX);
    for s in ["", "+", "-1", "-", "1a", "a1", " 1", "++1", "1.0", too_big.as_str()] {
        assert_eq!(parse_usize(s.as_bytes()), None, "{s}");
        assert!(s.parse::<usize>().is_err());
    }
}

#[test]
fn ppm_reads_pixels() {
    let data = ppm("P6\n2 1\n255\n", &[1, 2, 3, 4, 5, 6]);
    let t = Texture::from_ppm_bytes(&data).unwrap();
    assert_eq!((t.width(), t.height()), (2, 1));
    assert_eq!(t.texel(0, 0), Color::new(1, 2, 3));
    assert_eq!(t.texel(1, 0), Color::new(4, 5, 6));
}

#[test]
fn ppm_round_trip_with_comments() {
    let pixels: Vec<u8> = (0..2 * 3 * 3).map(|i| (i * 7) as u8).collect();
    let data = ppm("P6\n# Created by GIMP\n2 3\n# maxval\n255\n", &pixels);
    let t = Texture::from_ppm_bytes(&data).unwrap();
    assert_eq!((t.width(), t.height()), (2, 3));
    for y in 0..3 {
        for x in 0..2 {
            let i = 3 * (y * 2 + x);
            assert_eq!(t.texel(x, y), Color::new(pixels[i], pixels[i + 1], pixels[i + 2]));
        }
    }
}

#[test]
fn ppm_raster_starts_one_byte_past_header() {
    let data = ppm("P6 1 1 255\t", &[b' ', b'\n', 30]);
    let t = Texture::from_ppm_bytes(&data).unwrap();
    assert_eq!(t.texel(0, 0), Color::new(b' ', b'\n', 30));
}

#[test]
fn ppm_ignores_trailing_bytes() {
    let data = ppm("P6\n1 1\n255\n", &[10, 20, 30, 40, 50]);
    let t = Texture::from_ppm_bytes(&data).unwrap();
    assert_eq!((t.width(), t.height()), (1, 1));
    assert_eq!(t.texel(0, 0), Color::new(10, 20, 30));
}

#[test]
fn ppm_empty_image_is_refused() {
    let data = ppm("P6\n0 5\n255\n", &[]);
    assert_eq!(Texture::from_ppm_bytes(&data).err(), Some(PpmError::BadWidth));
    let data = ppm("P6\n5 0\n255\n", &[]);
    assert_eq!(Texture::from_ppm_bytes(&data).err(), Some(PpmError::BadHeight));
    let data = ppm("P6 0 0 255 ", &[]);
    assert_eq!(Texture::from_ppm_bytes(&data).err(), Some(PpmError::BadWidth));
}

#[test]
fn ppm_bad_magic_keeps_token() {
    let data = ppm("P3\n1 1\n255\n", &[1, 2, 3]);
    assert_eq!(Texture::from_ppm_bytes(&data).err(), Some(PpmError::BadMagic(b"P3".to_vec())));
    assert_eq!(Texture::from_ppm_bytes(b"").err(), Some(PpmError::BadMagic(Vec::new())));
}

#[test]
fn ppm_bad_width() {
    let data = ppm("P6\n-2 1\n255\n", &[1, 2, 3]);
    assert_eq!(Texture::from_ppm_bytes(&data).err(), Some(PpmError::BadWidth));
    assert_eq!(Texture::from_ppm_bytes(b"P6").err(), Some(PpmError::BadWidth));
}

#[test]
fn ppm_bad_height() {
    let data = ppm("P6\n2 x\n255\n", &[1, 2, 3]);
    assert_eq!(Texture::from_ppm_bytes(&data).err(), Some(PpmError::BadHeight));
}

#[test]
fn ppm_bad_maxval() {
    let data = ppm("P6\n1 1\n2.5\n", &[1, 2, 3]);
    assert_eq!(Texture::from_ppm_bytes(&data).err(), Some(PpmError::BadMaxval));
}

#[test]
fn ppm_maxval_is_not_range_checked() {
    let data = ppm("P6\n1 1\n70000\n", &[1, 2, 3]);
    assert!(Texture::from_ppm_bytes(&data).is_ok());
}

#[test]
fn ppm_truncated() {
    let data = ppm("P6\n2 1\n255\n", &[1, 2, 3, 4, 5]);
    assert_eq!(Texture::from_ppm_bytes(&data).err(), Some(PpmError::Truncated));
    assert_eq!(Texture::from_ppm_bytes(b"P6 1 1 255").err(), Some(PpmError::Truncated));
}

#[test]
fn ppm_huge_dimensions_are_truncated() {
    let header = format!("P6\n{} {}\n255\n", usize::MAX, 2);
    let data = ppm(&header, &[1, 2, 3]);
    assert_eq!(Texture::from_ppm_bytes(&data).err(), Some(PpmError::Truncated));
}
