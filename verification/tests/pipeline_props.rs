use perlin_favicon::encode::encode_png_data_uri;
use perlin_favicon::favicon::generate_favicon_data_uri;
use perlin_favicon::perm::generate_perm_table;
use perlin_favicon::rng::{HalfSource, Lcg};
use perlin_favicon::synth::{
    blend_brightness, center_distance, grain_mag, pixel_byte, radial_curve, synthesize_pixels,
};

#[test]
fn radial_curve_values() {
    assert_eq!(radial_curve(0), 0);
    assert_eq!(radial_curve(65536), 65536);
    assert_eq!(radial_curve(46341), 51408);
    assert_eq!(radial_curve(92683), 83520);
}

#[test]
fn radial_brightness_is_monotone_on_sample_grid() {
    let mut prev_radial: i64 = radial_curve(0);
    let mut prev_bright: i64 = blend_brightness(prev_radial, 32768);
    let mut d: i64 = 0;
    while d <= 92683 {
        let r = radial_curve(d);
        let b = blend_brightness(r, 32768);
        assert!(r >= prev_radial);
        assert!(b >= prev_bright);
        prev_radial = r;
        prev_bright = b;
        d += 997;
    }
}

#[test]
fn blend_values() {
    assert_eq!(blend_brightness(0, 32768), 0);
    assert_eq!(blend_brightness(40000, 32768), 27896);
}

#[test]
fn grain_values() {
    assert_eq!(grain_mag(32768), 0);
    assert_eq!(grain_mag(65535), 4915);
    assert_eq!(grain_mag(0), -4915);
}

#[test]
fn pixel_byte_values() {
    assert_eq!(pixel_byte(65536, 0), 255);
    assert_eq!(pixel_byte(0, -100), 0);
    assert_eq!(pixel_byte(32768, 0), 127);
    assert_eq!(pixel_byte(70000, 4915), 255);
    assert_eq!(pixel_byte(100, -4915), 0);
}

#[test]
fn center_distance_values() {
    assert_eq!(center_distance(2, 2, 4), 0);
    assert_eq!(center_distance(0, 0, 4), 92681);
    assert_eq!(center_distance(1, 2, 32), 84042);
}

#[test]
fn buffer_has_full_alpha_and_grayscale() {
    let mut rng = Lcg::new(2024);
    let t = generate_perm_table(&mut rng);
    let buf = synthesize_pixels(&mut rng, 8, 3, 32768, &t, 300000, 12345, 54321);
    assert_eq!(buf.len(), 8 * 8 * 4);
    let mut i: usize = 0;
    while i + 3 < buf.len() {
        assert_eq!(buf[i], buf[i + 1]);
        assert_eq!(buf[i], buf[i + 2]);
        assert_eq!(buf[i + 3], 255);
        i += 4;
    }
}

#[test]
fn synthesized_4x4_with_fixed_draws() {
    let mut rng = HalfSource {};
    let t = generate_perm_table(&mut rng);
    let buf = synthesize_pixels(&mut rng, 4, 1, 32768, &t, 327680, 32768000, 32768000);
    let expected: Vec<u8> = vec![
        172, 172, 172, 255, 142, 142, 142, 255, 101, 101, 101, 255, 142, 142, 142, 255, 124, 124,
        124, 255, 162, 162, 162, 255, 112, 112, 112, 255, 130, 130, 130, 255, 203, 203, 203, 255,
        121, 121, 121, 255, 0, 0, 0, 255, 138, 138, 138, 255, 124, 124, 124, 255, 135, 135, 135,
        255, 89, 89, 89, 255, 131, 131, 131, 255,
    ];
    assert_eq!(buf, expected);
}

#[test]
fn favicon_with_fixed_draws_is_reproducible() {
    let mut rng1 = HalfSource {};
    let uri1 = generate_favicon_data_uri(&mut rng1, 4, 1, 32768);
    let mut rng2 = HalfSource {};
    let uri2 = generate_favicon_data_uri(&mut rng2, 4, 1, 32768);
    assert!(!uri1.is_empty());
    assert_eq!(uri1, uri2);
    assert!(uri1.starts_with("data:image/png;base64,iVBOR"));
}

#[test]
fn favicon_with_pseudo_random_draws_is_well_formed() {
    let mut rng = Lcg::new(99);
    let uri = generate_favicon_data_uri(&mut rng, 32, 3, 32768);
    assert!(uri.starts_with("data:image/png;base64,"));
    assert!(uri.len() > 22);
}

#[test]
fn favicon_smallest_canvas_is_well_formed() {
    let mut rng = Lcg::new(1);
    let uri = generate_favicon_data_uri(&mut rng, 1, 1, 32768);
    assert!(uri.starts_with("data:image/png;base64,iVBOR"));
}

#[test]
fn encoder_rejects_wrong_buffer_length() {
    let bad: Vec<u8> = vec![0u8; 5];
    assert!(encode_png_data_uri(&bad, 2, 2).is_err());
}

#[test]
fn encoder_rejects_unsupported_dimensions() {
    let zero: Vec<u8> = Vec::new();
    assert!(encode_png_data_uri(&zero, 0, 0).is_err());
    let wide: Vec<u8> = vec![0u8; 4 * 2000];
    assert!(encode_png_data_uri(&wide, 2000, 1).is_err());
}

#[test]
fn encoder_accepts_exact_buffer_length() {
    let good: Vec<u8> = vec![0u8; 16];
    let r = encode_png_data_uri(&good, 2, 2);
    assert!(r.is_ok());
    assert!(r.unwrap().starts_with("data:image/png;base64,iVBOR"));
}
