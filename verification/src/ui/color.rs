//! The colors of a drawn line.

use vstd::prelude::*;

use crate::model::{Level, LogEntry, Stream};
use crate::number::{is_number, is_number_text};
use crate::text::{chars_of, same_text};

verus! {

/// A color of the terminal: its own colors, or one mixed of red, green and blue.
#[derive(Clone, Copy, Debug, PartialEq, Eq, Structural)]
pub enum Color {
    Reset,
    Black,
    DarkGrey,
    Red,
    DarkRed,
    Green,
    DarkGreen,
    Yellow,
    DarkYellow,
    Blue,
    DarkBlue,
    Magenta,
    DarkMagenta,
    Cyan,
    DarkCyan,
    White,
    Grey,
    Rgb { r: u8, g: u8, b: u8 },
}

/// The number of colors for span names.
pub const SPAN_PALETTE_SIZE: usize = 64;

/// The number of colors for the modules of a target.
pub const TARGET_PALETTE_SIZE: usize = 128;

/// The size of the full circle of hues, in sixteenths of a degree.
pub const HUES: u32 = 5760;

/// The color of quoted text.
pub open spec fn quoted_text_color() -> Color {
    Color::Rgb { r: 206, g: 145, b: 120 }
}

/// The color of the keys of span fields.
pub open spec fn key_color() -> Color {
    Color::Rgb { r: 156, g: 220, b: 254 }
}

/// The color of the punctuation of span fields.
pub open spec fn punctuation_color() -> Color {
    Color::Rgb { r: 150, g: 150, b: 150 }
}

/// The color behind the selected line.
pub open spec fn selection_color() -> Color {
    Color::Rgb { r: 64, g: 64, b: 64 }
}

/// A color as it is drawn on the selected line.
pub open spec fn on_selection(color: Color) -> Color {
    match color {
        Color::Red => Color::DarkRed,
        Color::Yellow => Color::DarkYellow,
        Color::Green => Color::DarkGreen,
        Color::Blue => Color::DarkBlue,
        Color::Cyan => Color::DarkCyan,
        Color::White => Color::Reset,
        Color::Grey => Color::Reset,
        other => other,
    }
}

/// The color of the name of a level.
pub open spec fn color_of_level(level: Level) -> Color {
    match level {
        Level::Trace => Color::DarkGrey,
        Level::Debug => Color::Cyan,
        Level::Info => Color::Green,
        Level::Warn => Color::Yellow,
        Level::Error => Color::Red,
        Level::Unknown => Color::White,
    }
}

/// The color of a level in the scrollbar.
pub open spec fn bar_color_of_level(level: Level) -> Color {
    match level {
        Level::Unknown => Color::DarkGrey,
        level => color_of_level(level),
    }
}

/// The color of the mark of a stream.
pub open spec fn color_of_stream(stream: Stream) -> Color {
    match stream {
        Stream::Stdout => Color::DarkGrey,
        Stream::Stderr => Color::Yellow,
    }
}

/// The color of a message.
pub open spec fn color_of_message(level: Level, stream: Stream) -> Color {
    if level == Level::Error {
        Color::Red
    } else if level == Level::Warn || (level == Level::Unknown && stream == Stream::Stderr) {
        Color::Yellow
    } else {
        Color::White
    }
}

/// The color of the value of a span field.
pub open spec fn color_of_value(value: Seq<char>) -> Color {
    if value == "true"@ || value == "false"@ {
        Color::Rgb { r: 86, g: 156, b: 214 }
    } else if is_number(value) {
        Color::Rgb { r: 181, g: 206, b: 168 }
    } else {
        Color::Reset
    }
}

/// The hash of some bytes: for each byte, the hash so far is multiplied, and the
/// byte is mixed in.
pub open spec fn hash_of(bytes: Seq<u8>) -> usize
    decreases bytes.len(),
{
    if bytes.len() == 0 {
        2_166_136_261
    } else {
        hash_of(bytes.drop_last()).wrapping_mul(16_777_619) ^ (bytes.last() as usize)
    }
}

/// The distance of two numbers.
pub open spec fn distance(a: int, b: int) -> int {
    if a <= b {
        b - a
    } else {
        a - b
    }
}

/// The chroma of a color, in parts of ten thousand.
pub open spec fn chroma(saturation: int, lightness: int) -> int {
    (100 - distance(2 * lightness, 100)) * saturation
}

/// How near `hue` is to an odd multiple of sixty degrees, in sixteenths of a
/// degree.
pub open spec fn hue_slope(hue: int) -> int {
    960 - distance(hue % 1920, 960)
}

/// A channel of a color, in parts of 19200000: the share `k` of 960 of the
/// chroma on top of the darkest channel.
pub open spec fn channel_share(chroma: int, k: int, lightness: int) -> int {
    2 * chroma * k + 192000 * lightness - 960 * chroma
}

/// The whole number nearest to 255 times a channel.
pub open spec fn channel(chroma: int, k: int, lightness: int) -> int {
    (510 * channel_share(chroma, k, lightness) + 19200000) / 38400000
}

/// The color with a hue in sixteenths of a degree, and with a saturation and a
/// lightness in percent.
pub open spec fn hsl(hue: int, saturation: int, lightness: int) -> Color {
    let c = chroma(saturation, lightness);
    let high = channel(c, 960, lightness) as u8;
    let middle = channel(c, hue_slope(hue), lightness) as u8;
    let low = channel(c, 0, lightness) as u8;
    let sector = hue / 960;
    if sector == 0 {
        Color::Rgb { r: high, g: middle, b: low }
    } else if sector == 1 {
        Color::Rgb { r: middle, g: high, b: low }
    } else if sector == 2 {
        Color::Rgb { r: low, g: high, b: middle }
    } else if sector == 3 {
        Color::Rgb { r: low, g: middle, b: high }
    } else if sector == 4 {
        Color::Rgb { r: middle, g: low, b: high }
    } else {
        Color::Rgb { r: high, g: low, b: middle }
    }
}

/// A color of the palette for span names: the hues go round the circle in equal
/// steps, from 18 degrees on.
pub open spec fn span_palette(index: int) -> Color {
    hsl((index * 90 + 288) % 5760, 34, 62)
}

/// A color of the palette for modules: the hues go round the circle in equal
/// steps, each quarter more saturated than the one before, and every other
/// eighth lighter.
pub open spec fn target_palette(index: int) -> Color {
    let saturation = 48 + 9 * (index / 32);
    let lightness = 58 + 10 * ((index / 16) % 2);
    hsl(
        (index * 45) % 5760,
        if saturation < 78 {
            saturation
        } else {
            78
        },
        lightness,
    )
}

/// The color of a span name.
pub open spec fn color_of_span(name: Seq<char>) -> Color {
    span_palette(hash_of(vstd::utf8::encode_utf8(name)) as int % 64)
}

/// The color of a module of a target.
pub open spec fn color_of_module(module: Seq<char>) -> Color {
    target_palette(hash_of(vstd::utf8::encode_utf8(module)) as int % 128)
}

/// The more severe levels stand out: an error is red, a warning yellow. No two levels
/// have the same color, and in the scrollbar only lines without a level look otherwise.
pub proof fn law_level_colors(level: Level, other: Level)
    ensures
        level != other ==> color_of_level(level) != color_of_level(other),
        color_of_level(Level::Error) == Color::Red,
        color_of_level(Level::Warn) == Color::Yellow,
        color_of_level(Level::Info) == Color::Green,
        color_of_level(Level::Debug) == Color::Cyan,
        color_of_level(Level::Trace) == Color::DarkGrey,
        color_of_level(Level::Unknown) == Color::White,
        bar_color_of_level(level) == if level == Level::Unknown {
            Color::DarkGrey
        } else {
            color_of_level(level)
        },
{
}

/// A message is red where it is an error, and yellow where it is a warning or comes
/// without a level from the error stream. Any other message is white.
pub proof fn law_message_colors(level: Level, stream: Stream)
    ensures
        color_of_message(level, stream) == Color::Red <==> level == Level::Error,
        color_of_message(level, stream) == Color::Yellow <==> level == Level::Warn || (level
            == Level::Unknown && stream == Stream::Stderr),
        color_of_message(level, stream) == Color::Red || color_of_message(level, stream)
            == Color::Yellow || color_of_message(level, stream) == Color::White,
        color_of_stream(Stream::Stderr) == Color::Yellow,
        color_of_stream(Stream::Stdout) == Color::DarkGrey,
{
}

/// On the selected line the bright colors are dark, white and grey are as the terminal
/// has them, and every other color stays. Once changed, a color does not change again.
pub proof fn law_selection_darkens_colors(color: Color, r: u8, g: u8, b: u8)
    ensures
        on_selection(on_selection(color)) == on_selection(color),
        on_selection(Color::Red) == Color::DarkRed,
        on_selection(Color::Yellow) == Color::DarkYellow,
        on_selection(Color::Green) == Color::DarkGreen,
        on_selection(Color::Blue) == Color::DarkBlue,
        on_selection(Color::Cyan) == Color::DarkCyan,
        on_selection(Color::White) == Color::Reset,
        on_selection(Color::Grey) == Color::Reset,
        on_selection(Color::DarkGrey) == Color::DarkGrey,
        on_selection(Color::Reset) == Color::Reset,
        on_selection(Color::Rgb { r, g, b }) == (Color::Rgb { r, g, b }),
{
}

/// How much of the chroma a channel has, of 960, where its hue is so many sixteenths of
/// a degree away: all of it up to sixty degrees, nothing from a hundred and twenty on,
/// and evenly less between them.
pub open spec fn share_at(hue: int) -> int {
    let away = if hue % 5760 <= 2880 {
        hue % 5760
    } else {
        5760 - hue % 5760
    };
    if away <= 960 {
        960
    } else if away >= 1920 {
        0
    } else {
        1920 - away
    }
}

/// Red, green and blue stand a third of the circle of hues apart, and each channel has
/// its share of the chroma by how far away its hue is.
pub proof fn law_channels_stand_a_third_apart(hue: int, saturation: int, lightness: int)
    requires
        0 <= hue < 5760,
    ensures
        ({
            let c = chroma(saturation, lightness);
            hsl(hue, saturation, lightness) == (Color::Rgb {
                r: channel(c, share_at(hue), lightness) as u8,
                g: channel(c, share_at(hue - 1920), lightness) as u8,
                b: channel(c, share_at(hue - 3840), lightness) as u8,
            })
        }),
{
}

/// The chroma of a color grows with its saturation. At half lightness all of it is
/// there, from there it falls evenly on both sides, and black and white have none. The
/// lightest and the darkest channel lie as far above the lightness as below it.
pub proof fn law_chroma_is_greatest_at_half_lightness(saturation: int, lightness: int)
    requires
        0 <= lightness <= 50,
    ensures
        chroma(saturation, lightness) == 2 * lightness * saturation,
        chroma(saturation, 100 - lightness) == chroma(saturation, lightness),
        channel_share(chroma(saturation, lightness), 960, lightness) - 192000 * lightness
            == 192000 * lightness - channel_share(chroma(saturation, lightness), 0, lightness),
        channel_share(chroma(saturation, lightness), 960, lightness) - channel_share(
            chroma(saturation, lightness),
            0,
            lightness,
        ) == 1920 * chroma(saturation, lightness),
{
    let c = chroma(saturation, lightness);
    assert(2 * c * 960 == 1920 * c) by (nonlinear_arith);
    assert(2 * c * 0 == 0) by (nonlinear_arith);
}

/// The color of a name is taken from a palette by all bytes of the name: one of
/// sixty-four for spans, one of a hundred and twenty-eight for modules.
pub proof fn law_names_have_colors_of_a_palette(name: Seq<char>)
    ensures
        ({
            let hash = hash_of(vstd::utf8::encode_utf8(name)) as int;
            &&& color_of_span(name) == span_palette(hash % 64)
            &&& color_of_module(name) == target_palette(hash % 128)
        }),
{
}

/// Every byte goes into a hash: the hash so far is multiplied, and the byte is mixed
/// in.
pub proof fn law_hashes_take_every_byte_in(bytes: Seq<u8>, byte: u8)
    ensures
        hash_of(Seq::empty()) == 2_166_136_261usize,
        hash_of(bytes.push(byte)) == hash_of(bytes).wrapping_mul(16_777_619) ^ (byte as usize),
{
    assert(bytes.push(byte).drop_last() =~= bytes);
}

/// Truth values and numbers among the values of spans have colors of their own.
pub proof fn law_value_colors(value: Seq<char>)
    ensures
        color_of_value("true"@) == color_of_value("false"@),
        color_of_value("true"@) == (Color::Rgb { r: 86, g: 156, b: 214 }),
        value != "true"@ && value != "false"@ ==> color_of_value(value) == if is_number(value) {
            Color::Rgb { r: 181, g: 206, b: 168 }
        } else {
            Color::Reset
        },
{
}

pub fn string_color() -> (r: Color)
    ensures
        r == quoted_text_color(),
{
    Color::Rgb { r: 206, g: 145, b: 120 }
}

pub fn span_key_color() -> (r: Color)
    ensures
        r == key_color(),
{
    Color::Rgb { r: 156, g: 220, b: 254 }
}

pub fn span_punctuation_color() -> (r: Color)
    ensures
        r == punctuation_color(),
{
    Color::Rgb { r: 150, g: 150, b: 150 }
}

pub fn selected_background() -> (r: Color)
    ensures
        r == selection_color(),
{
    Color::Rgb { r: 64, g: 64, b: 64 }
}

/// A color as it is drawn on the selected line.
pub fn selected_foreground(color: Color) -> (r: Color)
    ensures
        r == on_selection(color),
{
    match color {
        Color::Red => Color::DarkRed,
        Color::Yellow => Color::DarkYellow,
        Color::Green => Color::DarkGreen,
        Color::Blue => Color::DarkBlue,
        Color::Cyan => Color::DarkCyan,
        Color::White | Color::Grey => Color::Reset,
        other => other,
    }
}

/// The color of the name of a level.
pub fn level_color(level: Level) -> (r: Color)
    ensures
        r == color_of_level(level),
{
    match level {
        Level::Trace => Color::DarkGrey,
        Level::Debug => Color::Cyan,
        Level::Info => Color::Green,
        Level::Warn => Color::Yellow,
        Level::Error => Color::Red,
        Level::Unknown => Color::White,
    }
}

/// The color of a level in the scrollbar.
pub fn level_scrollbar_color(level: Level) -> (r: Color)
    ensures
        r == bar_color_of_level(level),
{
    match level {
        Level::Error => Color::Red,
        Level::Warn => Color::Yellow,
        Level::Info => Color::Green,
        Level::Debug => Color::Cyan,
        Level::Trace => Color::DarkGrey,
        Level::Unknown => Color::DarkGrey,
    }
}

/// The color of the mark of a stream.
pub fn stream_color(stream: Stream) -> (r: Color)
    ensures
        r == color_of_stream(stream),
{
    match stream {
        Stream::Stdout => Color::DarkGrey,
        Stream::Stderr => Color::Yellow,
    }
}

/// The color of the message of an entry.
pub fn message_color(entry: &LogEntry) -> (r: Color)
    ensures
        r == color_of_message(entry.level, entry.stream),
{
    match (entry.level, entry.stream) {
        (Level::Error, _) => Color::Red,
        (Level::Warn, _) => Color::Yellow,
        (Level::Unknown, Stream::Stderr) => Color::Yellow,
        _ => Color::White,
    }
}

/// The color of the value of a span field.
pub fn span_value_color(value: &str) -> (r: Color)
    ensures
        r == color_of_value(value@),
{
    if same_text(value, "true") || same_text(value, "false") {
        return Color::Rgb { r: 86, g: 156, b: 214 };
    }
    let chars = chars_of(value);
    if is_number_text(chars.as_slice()) {
        Color::Rgb { r: 181, g: 206, b: 168 }
    } else {
        Color::Reset
    }
}

/// The hash of a text, the same on every run.
pub fn stable_hash(value: &str) -> (r: usize)
    ensures
        r == hash_of(vstd::utf8::encode_utf8(value@)),
{
    let bytes = value.as_bytes();
    let mut hash: usize = 2_166_136_261;
    let mut i: usize = 0;
    assert(bytes@.take(0) =~= Seq::<u8>::empty());
    while i < bytes.len()
        invariant
            i <= bytes@.len(),
            hash == hash_of(bytes@.take(i as int)),
        decreases bytes@.len() - i,
    {
        assert(bytes@.take(i + 1).drop_last() =~= bytes@.take(i as int));
        hash = hash.wrapping_mul(16_777_619) ^ (bytes[i] as usize);
        i = i + 1;
    }
    assert(bytes@.take(i as int) =~= bytes@);
    hash
}

/// A channel is between none and full.
proof fn lemma_channel(saturation: int, lightness: int, k: int)
    requires
        0 <= saturation <= 100,
        0 <= lightness <= 100,
        0 <= k <= 960,
    ensures
        0 <= chroma(saturation, lightness) <= 10000,
        0 <= 2 * chroma(saturation, lightness) * k <= 1920 * chroma(saturation, lightness),
        0 <= channel_share(chroma(saturation, lightness), k, lightness) <= 19200000,
        0 <= channel(chroma(saturation, lightness), k, lightness) <= 255,
{
    let c = chroma(saturation, lightness);
    let span = 100 - distance(2 * lightness, 100);
    assert(0 <= span * saturation <= span * 100) by (nonlinear_arith)
        requires
            0 <= span,
            0 <= saturation <= 100,
    ;
    assert(span <= 2 * lightness && span <= 2 * (100 - lightness));
    assert(0 <= 2 * c * k <= 2 * c * 960) by (nonlinear_arith)
        requires
            0 <= c,
            0 <= k <= 960,
    ;
}

/// A channel is the whole number nearest to 255 times its share.
pub proof fn law_channel_is_nearest(saturation: int, lightness: int, k: int)
    requires
        0 <= saturation <= 100,
        0 <= lightness <= 100,
        0 <= k <= 960,
    ensures
        ({
            let c = chroma(saturation, lightness);
            let scaled = 255 * channel_share(c, k, lightness);
            distance(19200000 * channel(c, k, lightness), scaled) <= 9600000
        }),
{
    lemma_channel(saturation, lightness, k);
}

/// One channel of a color.
fn channel_value(chroma: u32, k: u32, lightness: u32) -> (r: u8)
    requires
        chroma <= 10000,
        k <= 960,
        lightness <= 100,
        0 <= 2 * chroma * k <= 1920 * chroma,
        0 <= channel_share(chroma as int, k as int, lightness as int) <= 19200000,
    ensures
        r == channel(chroma as int, k as int, lightness as int),
{
    let bright: u64 = 2 * (chroma as u64) * (k as u64);
    let share: u64 = bright + 192000 * (lightness as u64) - 960 * (chroma as u64);
    let value: u64 = (510 * share + 19200000) / 38400000;
    value as u8
}

/// The color with a hue in sixteenths of a degree, and with a saturation and a
/// lightness in percent.
pub fn hsl_to_rgb(hue: u32, saturation: u32, lightness: u32) -> (r: (u8, u8, u8))
    requires
        hue < HUES,
        saturation <= 100,
        lightness <= 100,
    ensures
        hsl(hue as int, saturation as int, lightness as int) == (Color::Rgb {
            r: r.0,
            g: r.1,
            b: r.2,
        }),
{
    proof {
        lemma_channel(saturation as int, lightness as int, 0);
        lemma_channel(saturation as int, lightness as int, 960);
        lemma_channel(saturation as int, lightness as int, hue_slope(hue as int));
    }
    let double: u32 = 2 * lightness;
    let span: u32 = if double <= 100 {
        double
    } else {
        200 - double
    };
    assert(span * saturation <= 10000) by (nonlinear_arith)
        requires
            span <= 100,
            saturation <= 100,
    ;
    let c: u32 = span * saturation;
    assert(c == chroma(saturation as int, lightness as int));
    let turn: u32 = hue % 1920;
    let slope: u32 = if turn <= 960 {
        turn
    } else {
        1920 - turn
    };
    let high = channel_value(c, 960, lightness);
    let middle = channel_value(c, slope, lightness);
    let low = channel_value(c, 0, lightness);
    match hue / 960 {
        0 => (high, middle, low),
        1 => (middle, high, low),
        2 => (low, high, middle),
        3 => (low, middle, high),
        4 => (middle, low, high),
        _ => (high, low, middle),
    }
}

/// A color of the palette for span names.
pub fn span_palette_color(index: usize) -> (r: Color)
    requires
        index < SPAN_PALETTE_SIZE,
    ensures
        r == span_palette(index as int),
{
    let hue: u32 = ((index as u32) * 90 + 288) % HUES;
    let (r, g, b) = hsl_to_rgb(hue, 34, 62);
    Color::Rgb { r, g, b }
}

/// The color of a span name.
pub fn span_name_color(span: &str) -> (r: Color)
    ensures
        r == color_of_span(span@),
{
    span_palette_color(stable_hash(span) % SPAN_PALETTE_SIZE)
}

/// A color of the palette for modules.
pub fn target_palette_color(index: usize) -> (r: Color)
    requires
        index < TARGET_PALETTE_SIZE,
    ensures
        r == target_palette(index as int),
{
    let slot: u32 = index as u32;
    let saturation: u32 = 48 + 9 * (slot / 32);
    let lightness: u32 = 58 + 10 * ((slot / 16) % 2);
    let (r, g, b) = hsl_to_rgb(
        (slot * 45) % HUES,
        if saturation < 78 {
            saturation
        } else {
            78
        },
        lightness,
    );
    Color::Rgb { r, g, b }
}

/// The color of a module of a target.
pub fn target_module_color(module: &str) -> (r: Color)
    ensures
        r == color_of_module(module@),
{
    target_palette_color(stable_hash(module) % TARGET_PALETTE_SIZE)
}

} // verus!
