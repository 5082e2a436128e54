use juliafatou::band::band_layout;
use juliafatou::colors::{return_colors, ColorStyle};
use juliafatou::escape::{escape_time, Escape, ITERATION_LIMIT};
use juliafatou::pair::{parse_pair, split_pair};
use juliafatou::render::{join_bands, render};
use num::Complex;

struct Setup {
    scale: f64,
    offset: (f64, f64, f64),
    complex: Complex<f64>,
    diverge: f64,
    factor: f64,
    power: u32,
    intensity: f64,
}

fn escape_value(pixel: (usize, usize), s: &Setup, c: Complex<f64>) -> f64 {
    let z0 = Complex {
        re: pixel.1 as f64 * s.scale - (s.offset.2 + s.offset.0),
        im: pixel.0 as f64 * s.scale - (s.offset.2 + s.offset.1),
    };
    let power = s.power;
    match escape_time(z0, ITERATION_LIMIT, &|z: Complex<f64>| z.norm_sqr() > 5.0, &move |z: Complex<f64>| z.powu(power) + c) {
        Escape::Escaped { iteration, z } => iteration as f64 + 2.0 - z.norm_sqr().ln().ln() / std::f64::consts::LN_2,
        Escape::Stayed => 0.0,
    }
}

fn image(threads: usize) -> Vec<u8> {
    let (width, height) = parse_pair("10x10", 'x').unwrap();
    let (re, im) = split_pair("-0.4,0.6", ',').unwrap();
    let (ox, oy) = split_pair("0:0", ':').unwrap();
    let (ox, oy): (f64, f64) = (ox.parse().unwrap(), oy.parse().unwrap());
    let scale = 3.0;
    let off = scale / 2.0;
    let ratio = width as f64 / height as f64;
    let setup = Setup {
        scale: scale / height as f64,
        offset: ((ox - off) + off * ratio, oy, off),
        complex: Complex::new(re.parse().unwrap(), im.parse().unwrap()),
        diverge: 0.01,
        factor: -0.25,
        power: 2,
        intensity: 3.0,
    };
    let anchors = return_colors(&ColorStyle::Greyscale, None, None).unwrap();
    let colors: Vec<colorgrad::Color> =
        anchors.iter().map(|c| colorgrad::Color::from_rgba8(c.r, c.g, c.b, 255)).collect();
    let grad = colorgrad::CustomGradient::new()
        .colors(&colors)
        .domain(&[0.0, 255.0])
        .mode(colorgrad::BlendMode::Rgb)
        .build()
        .unwrap();
    let shade = |p: (usize, usize)| {
        let c = setup.complex;
        let a = escape_value(p, &setup, c);
        let b = escape_value(p, &setup, Complex::new(c.re + setup.diverge, c.im - setup.diverge));
        let x = (a + b * setup.factor) / (1.0 + setup.factor);
        let px = grad.reflect_at(x * setup.intensity).to_rgba8();
        [px[0], px[1], px[2]]
    };
    let parts: Vec<Vec<u8>> = band_layout(height, threads)
        .iter()
        .map(|b| {
            let mut part = vec![0u8; width * b.height * 3];
            render(&mut part, (width, b.height), (0, b.top), &shade);
            part
        })
        .collect();
    join_bands(&parts)
}

#[test]
fn small_greyscale_image_is_the_same_for_every_thread_count() {
    let one = image(1);
    assert_eq!(one.len(), 10 * 10 * 3);
    assert_eq!(image(1), one);
    for threads in 2..=10 {
        assert_eq!(image(threads), one, "threads {}", threads);
    }
}

#[test]
fn small_greyscale_image_is_grey() {
    let one = image(1);
    for px in one.chunks(3) {
        assert_eq!(px[0], px[1]);
        assert_eq!(px[1], px[2]);
    }
}

#[test]
fn small_greyscale_image_matches_known_bytes() {
    let greys: [u8; 100] = [
        251, 251, 250, 250, 249, 249, 249, 249, 249, 250,
        251, 250, 249, 249, 247, 246, 246, 247, 248, 248,
        250, 249, 248, 247, 245, 236, 240, 243, 244, 246,
        249, 248, 247, 244, 241, 217, 255, 212, 181, 238,
        248, 247, 244, 107, 233, 225, 164, 125, 171, 233,
        247, 244, 239, 206, 135, 215, 135, 206, 239, 244,
        246, 233, 171, 125, 164, 225, 233, 107, 244, 247,
        246, 238, 181, 212, 255, 217, 241, 244, 247, 248,
        248, 246, 244, 243, 240, 236, 245, 247, 248, 249,
        249, 248, 248, 247, 246, 246, 247, 249, 249, 250,
    ];
    let expected: Vec<u8> = greys.iter().flat_map(|&g| [g, g, g]).collect();
    assert_eq!(image(1), expected);
    assert_eq!(image(4), expected);
}
