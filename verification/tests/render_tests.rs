use digraph::normalize::cantordust_channel;
use digraph::{
    render_ascii, render_rgba_pixels, AsciiParams, Digraph, HeatmapPalette, Mode, RenderParams,
    RgbaPixmap, Scale,
};

/// Count-to-intensity mapping of each scale (the floating-point part of rendering).
fn scale_map(scale: Scale, v: u32, max: u32) -> f32 {
    if v == 0 {
        return 0.0;
    }
    match scale {
        Scale::Log1p => {
            let ln1p_max = (max as f64).ln_1p() as f32;
            if ln1p_max <= 0.0 {
                0.0
            } else {
                (v as f64).ln_1p() as f32 / ln1p_max
            }
        }
        Scale::CantorDust => cantordust_channel(v) as f32 / 255.0,
        Scale::Linear => {
            if max == 0 {
                0.0
            } else {
                (v as f32 / max as f32).min(1.0)
            }
        }
    }
}

/// Ramp position for a tile, as the terminal heatmap chooses it.
fn tone(scale: Scale) -> impl Fn(u32, u32, usize) -> usize {
    move |v, max, last| (scale_map(scale, v, max) * last as f32).round() as usize
}

fn lerp(a: f32, b: f32, t: f32) -> f32 {
    a + (b - a) * t
}

fn magma(t: f32) -> [u8; 4] {
    let t = t.clamp(0.0, 1.0);
    let (r, g, b) = if t < 0.25 {
        let u = t / 0.25;
        (lerp(0.0, 28.0, u), lerp(0.0, 16.0, u), lerp(4.0, 68.0, u))
    } else if t < 0.5 {
        let u = (t - 0.25) / 0.25;
        (lerp(28.0, 120.0, u), lerp(16.0, 28.0, u), lerp(68.0, 128.0, u))
    } else if t < 0.75 {
        let u = (t - 0.5) / 0.25;
        (lerp(120.0, 220.0, u), lerp(28.0, 100.0, u), lerp(128.0, 220.0, u))
    } else {
        let u = (t - 0.75) / 0.25;
        (lerp(220.0, 252.0, u), lerp(100.0, 254.0, u), lerp(220.0, 252.0, u))
    };
    [r as u8, g as u8, b as u8, 255]
}

#[test]
fn ascii_empty_is_dim() {
    let d = Digraph::empty();
    let params = AsciiParams {
        cols: 2,
        rows: 2,
        ramp: ".#".to_string(),
        ..AsciiParams::default()
    };
    let s = render_ascii(&d, params.clone(), tone(params.scale));
    assert_eq!(s, "..\n..\n");
}

#[test]
fn ascii_grid_shape_and_bright_cell() {
    let d = Digraph::from_bytes_with_mode(&[1, 2, 1, 2], Mode::Overlapping);
    let s = render_ascii(
        &d,
        AsciiParams {
            cols: 4,
            rows: 2,
            scale: Scale::Linear,
            ramp: ".@".to_string(),
        },
        tone(Scale::Linear),
    );
    let lines: Vec<&str> = s.lines().collect();
    assert_eq!(lines.len(), 2);
    assert!(lines.iter().all(|line| line.len() == 4));
    assert!(s.contains('@'));
}

#[test]
fn rgba_pixmap_matches_cell_size() {
    let d = Digraph::from_bytes_with_mode(&[0, 255], Mode::Overlapping);
    let params = RenderParams {
        cell_pixels: 2,
        scale: Scale::Linear,
        palette: HeatmapPalette::Magma,
    };
    let p = render_rgba_pixels(&d, params, |v, max| magma(scale_map(params.scale, v, max)));
    assert_eq!(p.width, 512);
    assert_eq!(p.height, 512);
    assert!(p.is_valid());
    let stride = 512 * 4;
    let yi = 0 * 2;
    let xi = 255 * 2;
    let idx = yi * stride + xi * 4;
    assert!(p.rgba[idx + 3] > 0);
    assert!(p.rgba[idx + 1] > 10 || p.rgba[idx + 0] > 0);
}

#[test]
fn ascii_exact_picture() {
    let d = Digraph::from_bytes(&[1, 2]);
    let params = AsciiParams {
        cols: 2,
        rows: 2,
        scale: Scale::Linear,
        ramp: ".@".to_string(),
    };
    assert_eq!(render_ascii(&d, params.clone(), tone(Scale::Linear)), "@.\n..\n");
    assert_eq!(d.to_ascii(params, tone(Scale::Linear)), "@.\n..\n");
}

#[test]
fn ascii_dims_are_clamped_and_empty_ramp_defaults() {
    let d = Digraph::from_bytes(&[200, 100]);
    let s = render_ascii(
        &d,
        AsciiParams {
            cols: 0,
            rows: 0,
            scale: Scale::CantorDust,
            ramp: String::new(),
        },
        tone(Scale::CantorDust),
    );
    // CantorDust maps a single pair to 15/255, which rounds to the dim end of " #".
    assert_eq!(s, " \n");
    let big = render_ascii(
        &Digraph::empty(),
        AsciiParams {
            cols: 1000,
            rows: 300,
            scale: Scale::Log1p,
            ramp: "ab".to_string(),
        },
        tone(Scale::Log1p),
    );
    let lines: Vec<&str> = big.lines().collect();
    assert_eq!(lines.len(), 256);
    assert!(lines.iter().all(|l| l.len() == 256 && l.chars().all(|c| c == 'a')));
}

#[test]
fn ascii_tone_is_capped_at_last_character() {
    let d = Digraph::from_bytes(&[0, 0]);
    let s = render_ascii(
        &d,
        AsciiParams {
            cols: 1,
            rows: 1,
            scale: Scale::Linear,
            ramp: "xyz".to_string(),
        },
        |_v, _max, _last| 99,
    );
    assert_eq!(s, "z\n");
}

#[test]
fn ascii_defaults() {
    let p = AsciiParams::default();
    assert_eq!(p.cols, 80);
    assert_eq!(p.rows, 36);
    assert_eq!(p.scale, Scale::CantorDust);
    assert_eq!(p.ramp, " .:-=+*#%@");
    let s = render_ascii(&Digraph::empty(), p, tone(Scale::CantorDust));
    assert_eq!(s.lines().count(), 36);
    assert!(s.lines().all(|l| l == " ".repeat(80)));
}

#[test]
fn raster_places_cell_at_second_byte_column() {
    let d = Digraph::from_bytes(&[1, 2]);
    let params = RenderParams {
        cell_pixels: 3,
        scale: Scale::Linear,
        palette: HeatmapPalette::Gray,
    };
    let p = d.to_rgba_pixels(params, |v, _max| [v as u8 * 200, 7, 9, 255]);
    assert_eq!(p.width, 768);
    assert!(p.is_valid());
    let stride = 768 * 4;
    for dy in 0..3 {
        for dx in 0..3 {
            let idx = (1 * 3 + dy) * stride + (2 * 3 + dx) * 4;
            assert_eq!(&p.rgba[idx..idx + 4], &[200, 7, 9, 255]);
        }
    }
    assert_eq!(&p.rgba[0..4], &[0, 7, 9, 255]);
    let transposed = (2 * 3) * stride + (1 * 3) * 4;
    assert_eq!(&p.rgba[transposed..transposed + 4], &[0, 7, 9, 255]);
}

#[test]
fn raster_zero_cell_pixels_means_one() {
    let d = Digraph::empty();
    let params = RenderParams {
        cell_pixels: 0,
        ..RenderParams::default()
    };
    let p = render_rgba_pixels(&d, params, |_v, _max| [1, 2, 3, 4]);
    assert_eq!((p.width, p.height), (256, 256));
    assert_eq!(p.rgba.len(), 256 * 256 * 4);
    assert!(p.rgba.chunks(4).all(|c| c == [1, 2, 3, 4]));
}

#[test]
fn render_params_default() {
    let p = RenderParams::default();
    assert_eq!(p.cell_pixels, 2);
    assert_eq!(p.scale, Scale::CantorDust);
    assert_eq!(p.palette, HeatmapPalette::Matrix);
    assert_eq!(HeatmapPalette::default(), HeatmapPalette::Matrix);
}

#[test]
fn pixmap_validity() {
    let ok = RgbaPixmap { width: 2, height: 3, rgba: vec![0; 24] };
    assert!(ok.is_valid());
    let bad = RgbaPixmap { width: 2, height: 3, rgba: vec![0; 23] };
    assert!(!bad.is_valid());
    let huge = RgbaPixmap { width: u32::MAX, height: u32::MAX, rgba: vec![] };
    assert!(!huge.is_valid());
}

#[test]
fn cantordust_channel_ramp() {
    assert_eq!(cantordust_channel(1), 15);
    assert_eq!(cantordust_channel(10), 60);
    assert_eq!(cantordust_channel(48), 250);
    assert_eq!(cantordust_channel(49), 255);
    assert_eq!(cantordust_channel(10_000), 255);
    assert_eq!(cantordust_channel(u32::MAX), 255);
}
