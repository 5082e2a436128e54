//! The three anchor colors of the gradient: built-in palettes, a
//! configuration text, or random bytes.
use vstd::prelude::*;
use crate::text::{
    chars_of, line_spans, lines_of, parse_decimal, parse_unsigned, pieces, split_spans,
    spans_text, spans_within, Span,
};

verus! {

/// Where the anchor colors come from: a built-in palette, a configuration
/// file, or random bytes.
#[derive(Clone, Copy, Debug, PartialEq, Eq, Structural)]
pub enum ColorStyle {
    Bookworm,
    Jellyfish,
    Ten,
    Eleven,
    Mint,
    Greyscale,
    Christmas,
    Chameleon,
    Plasma,
    Plasma2,
    Config,
    Random,
}

/// An opaque color given by its red, green and blue components.
#[derive(Clone, Copy, Debug, PartialEq, Eq, Structural)]
pub struct Rgb {
    pub r: u8,
    pub g: u8,
    pub b: u8,
}

/// Why no anchor colors could be had.
#[derive(Clone, Copy, Debug, PartialEq, Eq, Structural)]
pub enum ColorError {
    /// The configuration does not hold exactly three color lines after its header.
    WrongLineCount,
    /// A color line is not three comma-separated numbers from 0 to 255.
    BadComponent,
    /// The configuration style was chosen but no configuration text was given.
    MissingConfig,
    /// The random style was chosen but no random bytes were given.
    MissingRandom,
}

pub open spec fn rgb(r: u8, g: u8, b: u8) -> Rgb {
    Rgb { r, g, b }
}

/// The anchor colors of each built-in palette.
pub open spec fn palette_of(style: ColorStyle) -> Option<Seq<Rgb>> {
    match style {
        ColorStyle::Bookworm => Some(seq![rgb(5, 71, 92), rgb(10, 120, 115), rgb(184, 216, 215)]),
        ColorStyle::Jellyfish => Some(seq![rgb(38, 0, 24), rgb(90, 25, 63), rgb(198, 70, 72)]),
        ColorStyle::Ten => Some(seq![rgb(4, 62, 185), rgb(2, 123, 230), rgb(105, 254, 255)]),
        ColorStyle::Greyscale => Some(seq![rgb(255, 255, 255), rgb(127, 127, 127), rgb(0, 0, 0)]),
        ColorStyle::Eleven => Some(seq![rgb(2, 70, 217), rgb(1, 214, 244), rgb(209, 229, 254)]),
        ColorStyle::Mint => Some(seq![rgb(21, 21, 21), rgb(137, 184, 70), rgb(214, 214, 214)]),
        ColorStyle::Chameleon => Some(seq![rgb(11, 127, 109), rgb(35, 145, 108), rgb(21, 155, 110)]),
        ColorStyle::Plasma => Some(seq![rgb(35, 37, 83), rgb(36, 102, 156), rgb(219, 135, 75)]),
        ColorStyle::Plasma2 => Some(seq![rgb(0, 87, 139), rgb(0, 147, 235), rgb(249, 249, 249)]),
        ColorStyle::Christmas => Some(seq![rgb(31, 56, 35), rgb(209, 27, 79), rgb(250, 219, 82)]),
        ColorStyle::Config => None,
        ColorStyle::Random => None,
    }
}

/// The lines of a configuration text after its header line.
pub open spec fn config_lines(text: Seq<char>) -> Seq<Seq<char>> {
    let ls = lines_of(text);
    if ls.len() == 0 {
        ls
    } else {
        ls.drop_first()
    }
}

/// The color that a line `R,G,B` of the configuration gives: exactly
/// three comma-separated fields, each a number from 0 to 255.
pub open spec fn line_color(line: Seq<char>) -> Option<Rgb> {
    let fs = pieces(line, ',');
    if fs.len() != 3 {
        None
    } else {
        match (parse_unsigned(fs[0], 255), parse_unsigned(fs[1], 255), parse_unsigned(fs[2], 255)) {
            (Some(r), Some(g), Some(b)) => Some(rgb(r as u8, g as u8, b as u8)),
            _ => None,
        }
    }
}

/// The anchor colors that a configuration text gives: a header line, then
/// exactly three lines `R,G,B`.
pub open spec fn config_colors(text: Seq<char>) -> Result<Seq<Rgb>, ColorError> {
    let ls = config_lines(text);
    if ls.len() != 3 {
        Err(ColorError::WrongLineCount)
    } else {
        match (line_color(ls[0]), line_color(ls[1]), line_color(ls[2])) {
            (Some(a), Some(b), Some(c)) => Ok(seq![a, b, c]),
            _ => Err(ColorError::BadComponent),
        }
    }
}

/// The anchor colors that nine random bytes give, three bytes per color.
pub open spec fn random_colors(bytes: Seq<u8>) -> Seq<Rgb> {
    seq![
        rgb(bytes[0], bytes[1], bytes[2]),
        rgb(bytes[3], bytes[4], bytes[5]),
        rgb(bytes[6], bytes[7], bytes[8]),
    ]
}

/// The anchor colors of a built-in palette; `None` for the styles that
/// read them from elsewhere.
pub fn palette(style: &ColorStyle) -> (r: Option<[Rgb; 3]>)
    ensures
        match palette_of(*style) {
            Some(p) => r matches Some(a) && a@ == p,
            None => r is None,
        },
{
    let a = match style {
        ColorStyle::Bookworm => [Rgb { r: 5, g: 71, b: 92 }, Rgb { r: 10, g: 120, b: 115 }, Rgb { r: 184, g: 216, b: 215 }],
        ColorStyle::Jellyfish => [Rgb { r: 38, g: 0, b: 24 }, Rgb { r: 90, g: 25, b: 63 }, Rgb { r: 198, g: 70, b: 72 }],
        ColorStyle::Ten => [Rgb { r: 4, g: 62, b: 185 }, Rgb { r: 2, g: 123, b: 230 }, Rgb { r: 105, g: 254, b: 255 }],
        ColorStyle::Greyscale => [Rgb { r: 255, g: 255, b: 255 }, Rgb { r: 127, g: 127, b: 127 }, Rgb { r: 0, g: 0, b: 0 }],
        ColorStyle::Eleven => [Rgb { r: 2, g: 70, b: 217 }, Rgb { r: 1, g: 214, b: 244 }, Rgb { r: 209, g: 229, b: 254 }],
        ColorStyle::Mint => [Rgb { r: 21, g: 21, b: 21 }, Rgb { r: 137, g: 184, b: 70 }, Rgb { r: 214, g: 214, b: 214 }],
        ColorStyle::Chameleon => [Rgb { r: 11, g: 127, b: 109 }, Rgb { r: 35, g: 145, b: 108 }, Rgb { r: 21, g: 155, b: 110 }],
        ColorStyle::Plasma => [Rgb { r: 35, g: 37, b: 83 }, Rgb { r: 36, g: 102, b: 156 }, Rgb { r: 219, g: 135, b: 75 }],
        ColorStyle::Plasma2 => [Rgb { r: 0, g: 87, b: 139 }, Rgb { r: 0, g: 147, b: 235 }, Rgb { r: 249, g: 249, b: 249 }],
        ColorStyle::Christmas => [Rgb { r: 31, g: 56, b: 35 }, Rgb { r: 209, g: 27, b: 79 }, Rgb { r: 250, g: 219, b: 82 }],
        ColorStyle::Config => {
            return None;
        },
        ColorStyle::Random => {
            return None;
        },
    };
    assert(a@ =~= palette_of(*style)->Some_0);
    Some(a)
}

/// The anchor colors that nine random bytes give.
pub fn colors_from_random(bytes: &[u8; 9]) -> (r: [Rgb; 3])
    ensures
        r@ == random_colors(bytes@),
{
    let a = [
        Rgb { r: bytes[0], g: bytes[1], b: bytes[2] },
        Rgb { r: bytes[3], g: bytes[4], b: bytes[5] },
        Rgb { r: bytes[6], g: bytes[7], b: bytes[8] },
    ];
    assert(a@ =~= random_colors(bytes@));
    a
}

/// The value of field `k` of a color line whose fields have the spans `fields`.
fn field_value(cs: &Vec<char>, fields: &Vec<Span>, k: usize) -> (r: Option<u8>)
    requires
        spans_within(fields@, 0, cs@.len() as int),
        k < fields@.len(),
    ensures
        match parse_unsigned(spans_text(cs@, fields@)[k as int], 255) {
            Some(v) => r == Some(v as u8),
            None => r is None,
        },
{
    let f = fields[k];
    assert(spans_text(cs@, fields@)[k as int] == cs@.subrange(f.0 as int, f.1 as int));
    match parse_decimal(cs, f.0, f.1, 255) {
        Some(v) => Some(v as u8),
        None => None,
    }
}

/// The color of the line `cs[span.0..span.1]`.
fn color_of_line(cs: &Vec<char>, span: Span) -> (r: Option<Rgb>)
    requires
        span.0 <= span.1 <= cs@.len(),
    ensures
        r == line_color(cs@.subrange(span.0 as int, span.1 as int)),
{
    let ghost line = cs@.subrange(span.0 as int, span.1 as int);
    let fields = split_spans(cs, span.0, span.1, ',');
    assert(spans_text(cs@, fields@).len() == fields@.len());
    if fields.len() != 3 {
        return None;
    }
    let r = field_value(cs, &fields, 0);
    let g = field_value(cs, &fields, 1);
    let b = field_value(cs, &fields, 2);
    match (r, g, b) {
        (Some(r), Some(g), Some(b)) => Some(Rgb { r, g, b }),
        _ => None,
    }
}

/// The anchor colors that a configuration text gives: a header line that
/// is skipped, then exactly three lines `R,G,B` of numbers from 0 to 255.
/// Any other shape of line is a `BadComponent` error.
pub fn colors_from_config(text: &str) -> (r: Result<[Rgb; 3], ColorError>)
    ensures
        match config_colors(text@) {
            Ok(p) => r matches Ok(a) && a@ == p,
            Err(e) => r == Err::<[Rgb; 3], ColorError>(e),
        },
{
    let cs = chars_of(text);
    let n = cs.len();
    assert(cs@.subrange(0, n as int) =~= text@);
    let lines = line_spans(&cs, 0, n);
    let ghost ls = config_lines(text@);
    if lines.len() != 4 {
        assert(spans_text(cs@, lines@).len() == lines@.len());
        return Err(ColorError::WrongLineCount);
    }
    proof {
        let all = spans_text(cs@, lines@);
        assert(ls[0] == all[1]);
        assert(ls[1] == all[2]);
        assert(ls[2] == all[3]);
    }
    let a = color_of_line(&cs, lines[1]);
    let b = color_of_line(&cs, lines[2]);
    let c = color_of_line(&cs, lines[3]);
    match (a, b, c) {
        (Some(a), Some(b), Some(c)) => {
            let out = [a, b, c];
            assert(out@ =~= seq![a, b, c]);
            Ok(out)
        },
        _ => Err(ColorError::BadComponent),
    }
}

/// The three anchor colors for `style`: a built-in palette, the colors of
/// the configuration text `config`, or those of the random bytes `random`.
pub fn return_colors(style: &ColorStyle, config: Option<&str>, random: Option<[u8; 9]>) -> (r: Result<[Rgb; 3], ColorError>)
    ensures
        match *style {
            ColorStyle::Config => match config {
                Some(t) => match config_colors(t@) {
                    Ok(p) => r matches Ok(a) && a@ == p,
                    Err(e) => r == Err::<[Rgb; 3], ColorError>(e),
                },
                None => r == Err::<[Rgb; 3], ColorError>(ColorError::MissingConfig),
            },
            ColorStyle::Random => match random {
                Some(b) => r matches Ok(a) && a@ == random_colors(b@),
                None => r == Err::<[Rgb; 3], ColorError>(ColorError::MissingRandom),
            },
            _ => r matches Ok(a) && Some(a@) == palette_of(*style),
        },
{
    match style {
        ColorStyle::Config => match config {
            Some(t) => colors_from_config(t),
            None => Err(ColorError::MissingConfig),
        },
        ColorStyle::Random => match random {
            Some(b) => Ok(colors_from_random(&b)),
            None => Err(ColorError::MissingRandom),
        },
        _ => match palette(style) {
            Some(a) => Ok(a),
            None => Err(ColorError::MissingConfig),
        },
    }
}

} // verus!
