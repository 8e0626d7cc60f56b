use traceviewer::model::{Level, Stream};
use traceviewer::ui::color::{
    hsl_to_rgb, level_color, level_scrollbar_color, selected_background, selected_foreground,
    span_name_color, span_palette_color, span_value_color, stable_hash, stream_color,
    target_module_color, target_palette_color, Color, SPAN_PALETTE_SIZE, TARGET_PALETTE_SIZE,
};

/// The usual conversion of a hue in degrees, in single precision.
fn single_precision(hue: f32, saturation: f32, lightness: f32) -> (u8, u8, u8) {
    let chroma = (1.0 - (2.0 * lightness - 1.0).abs()) * saturation;
    let hue_sector = hue / 60.0;
    let x = chroma * (1.0 - (hue_sector % 2.0 - 1.0).abs());
    let (r1, g1, b1) = match hue_sector as u8 {
        0 => (chroma, x, 0.0),
        1 => (x, chroma, 0.0),
        2 => (0.0, chroma, x),
        3 => (0.0, x, chroma),
        4 => (x, 0.0, chroma),
        _ => (chroma, 0.0, x),
    };
    let m = lightness - chroma / 2.0;
    (
        ((r1 + m) * 255.0).round() as u8,
        ((g1 + m) * 255.0).round() as u8,
        ((b1 + m) * 255.0).round() as u8,
    )
}

#[test]
fn span_palette_is_the_rounded_one_in_every_slot() {
    for index in 0..SPAN_PALETTE_SIZE {
        let hue = (index as f32 * 360.0 / SPAN_PALETTE_SIZE as f32 + 18.0) % 360.0;
        let (r, g, b) = single_precision(hue, 0.34, 0.62);
        assert_eq!(span_palette_color(index), Color::Rgb { r, g, b }, "{index}");
    }
}

#[test]
fn target_palette_is_the_rounded_one_in_every_slot() {
    for index in 0..TARGET_PALETTE_SIZE {
        let hue = (index as f32 * 360.0 / TARGET_PALETTE_SIZE as f32) % 360.0;
        let saturation = 0.48 + ((index / 32) as f32 * 0.09);
        let lightness = 0.58 + ((index / 16) % 2) as f32 * 0.10;
        let (r, g, b) = single_precision(hue, saturation.min(0.78), lightness.min(0.72));
        assert_eq!(target_palette_color(index), Color::Rgb { r, g, b }, "{index}");
    }
}

#[test]
fn palettes_have_exact_colors() {
    assert_eq!(span_palette_color(0), Color::Rgb { r: 191, g: 145, b: 125 });
    assert_eq!(target_palette_color(0), Color::Rgb { r: 199, g: 96, b: 96 });
    assert_eq!(hsl_to_rgb(0, 100, 50), (255, 0, 0));
    assert_eq!(hsl_to_rgb(1920, 100, 50), (0, 255, 0));
    assert_eq!(hsl_to_rgb(3840, 100, 50), (0, 0, 255));
    assert_eq!(hsl_to_rgb(960, 100, 50), (255, 255, 0));
    assert_eq!(hsl_to_rgb(480, 0, 100), (255, 255, 255));
    assert_eq!(hsl_to_rgb(480, 100, 0), (0, 0, 0));
}

#[test]
fn hashes_are_stable() {
    let expected = |text: &str| {
        text.bytes().fold(2_166_136_261usize, |hash, byte| {
            hash.wrapping_mul(16_777_619) ^ byte as usize
        })
    };
    assert_eq!(stable_hash(""), 2_166_136_261);
    for text in ["a", "worker", "my_crate", "größe", "日本"] {
        assert_eq!(stable_hash(text), expected(text));
    }
    assert_eq!(
        span_name_color("request"),
        span_palette_color(expected("request") % 64)
    );
    assert_eq!(
        target_module_color("worker"),
        target_palette_color(expected("worker") % 128)
    );
}

#[test]
fn values_are_colored_by_kind() {
    let word = Color::Rgb { r: 86, g: 156, b: 214 };
    let number = Color::Rgb { r: 181, g: 206, b: 168 };
    assert_eq!(span_value_color("true"), word);
    assert_eq!(span_value_color("false"), word);
    assert_eq!(span_value_color("7"), number);
    assert_eq!(span_value_color("-1.5e3"), number);
    assert_eq!(span_value_color("NaN"), number);
    assert_eq!(span_value_color("seven"), Color::Reset);
    assert_eq!(span_value_color("True"), Color::Reset);
}

#[test]
fn selection_darkens_colors() {
    assert_eq!(selected_background(), Color::Rgb { r: 64, g: 64, b: 64 });
    assert_eq!(selected_foreground(Color::Red), Color::DarkRed);
    assert_eq!(selected_foreground(Color::Cyan), Color::DarkCyan);
    assert_eq!(selected_foreground(Color::White), Color::Reset);
    assert_eq!(selected_foreground(Color::Grey), Color::Reset);
    assert_eq!(selected_foreground(Color::DarkGrey), Color::DarkGrey);
}

#[test]
fn levels_and_streams_have_colors() {
    assert_eq!(level_color(Level::Trace), Color::DarkGrey);
    assert_eq!(level_color(Level::Unknown), Color::White);
    assert_eq!(level_scrollbar_color(Level::Unknown), Color::DarkGrey);
    assert_eq!(level_scrollbar_color(Level::Warn), Color::Yellow);
    assert_eq!(stream_color(Stream::Stdout), Color::DarkGrey);
    assert_eq!(stream_color(Stream::Stderr), Color::Yellow);
}
