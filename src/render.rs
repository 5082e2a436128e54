//! Filling a band of the pixel buffer: each pixel gets the color that the
//! shading function gives for its place in the whole image.
use vstd::prelude::*;
use crate::band::{is_band, is_layout, spec_rows_per_band, Band};

verus! {

/// Position in a row-major RGB buffer of `width` pixels per row of the
/// first byte of pixel (`row`, `col`).
pub open spec fn pixel_offset(width: nat, row: nat, col: nat) -> nat {
    (row * width + col) * 3
}

/// The three bytes of pixel (`row`, `col`).
pub open spec fn pixel_bytes(pixels: Seq<u8>, width: nat, row: nat, col: nat) -> Seq<u8> {
    let i = pixel_offset(width, row, col) as int;
    pixels.subrange(i, i + 3)
}

/// Pixel (`row`, `col`) of a band whose upper-left corner lies at row
/// `top`, column `left` of the image holds a color that `shade` gives for
/// the pixel's place in the image, (`top + row`, `left + col`).
pub open spec fn is_shaded<F: Fn((usize, usize)) -> [u8; 3]>(
    shade: F,
    pixels: Seq<u8>,
    width: nat,
    top: nat,
    left: nat,
    row: nat,
    col: nat,
) -> bool {
    exists|px: [u8; 3]|
        shade.ensures((((top + row) as usize, (left + col) as usize),), px) && pixel_bytes(pixels, width, row, col) == px@
}

proof fn lemma_pixel_fits(width: nat, height: nat, row: nat, col: nat)
    requires
        row < height,
        col < width,
    ensures
        pixel_offset(width, row, col) + 3 <= width * height * 3,
{
    assert((row * width + col) * 3 + 3 <= width * height * 3) by (nonlinear_arith)
        requires
            row < height,
            col < width,
    ;
}

proof fn lemma_pixel_order(width: nat, r1: nat, c1: nat, r2: nat, c2: nat)
    requires
        c1 < width,
        c2 < width,
        r1 < r2 || (r1 == r2 && c1 < c2),
    ensures
        pixel_offset(width, r1, c1) + 3 <= pixel_offset(width, r2, c2),
{
    assert((r1 * width + c1) * 3 + 3 <= (r2 * width + c2) * 3) by (nonlinear_arith)
        requires
            c1 < width,
            c2 < width,
            r1 < r2 || (r1 == r2 && c1 < c2),
    ;
}

/// Writes every pixel of a band of `bounds.0` columns and `bounds.1` rows
/// whose upper-left corner lies at column `upper_left.0`, row
/// `upper_left.1` of the image. Each pixel gets the color that `shade`
/// returns for its (row, column) in the whole image, so a band holds the
/// same bytes however the image was divided.
pub fn render<F: Fn((usize, usize)) -> [u8; 3]>(
    pixels: &mut Vec<u8>,
    bounds: (usize, usize),
    upper_left: (usize, usize),
    shade: &F,
)
    requires
        old(pixels)@.len() == bounds.0 * bounds.1 * 3,
        bounds.1 + upper_left.1 <= usize::MAX,
        bounds.0 + upper_left.0 <= usize::MAX,
        forall|p: (usize, usize)| shade.requires((p,)),
    ensures
        final(pixels)@.len() == old(pixels)@.len(),
        forall|row: nat, col: nat|
            row < bounds.1 && col < bounds.0 ==> #[trigger] is_shaded(
                *shade,
                final(pixels)@,
                bounds.0 as nat,
                upper_left.1 as nat,
                upper_left.0 as nat,
                row,
                col,
            ),
{
    let width = bounds.0;
    let height = bounds.1;
    let ghost w = width as nat;
    let ghost top = upper_left.1 as nat;
    let ghost left = upper_left.0 as nat;
    let ghost len = pixels@.len();
    let mut base: usize = 0;
    let mut row: usize = 0;
    while row < height
        invariant
            width == bounds.0,
            height == bounds.1,
            w == width,
            top == upper_left.1,
            left == upper_left.0,
            len == bounds.0 * bounds.1 * 3,
            pixels@.len() == len,
            height + upper_left.1 <= usize::MAX,
            width + upper_left.0 <= usize::MAX,
            forall|p: (usize, usize)| shade.requires((p,)),
            row <= height,
            base == pixel_offset(w, row as nat, 0),
            forall|r: nat, c: nat| r < row && c < width ==> #[trigger] is_shaded(*shade, pixels@, w, top, left, r, c),
        decreases height - row,
    {
        let mut col: usize = 0;
        while col < width
            invariant
                width == bounds.0,
                height == bounds.1,
                w == width,
                top == upper_left.1,
                left == upper_left.0,
                len == bounds.0 * bounds.1 * 3,
                pixels@.len() == len,
                height + upper_left.1 <= usize::MAX,
                width + upper_left.0 <= usize::MAX,
                forall|p: (usize, usize)| shade.requires((p,)),
                row < height,
                col <= width,
                base == pixel_offset(w, row as nat, col as nat),
                forall|r: nat, c: nat|
                    (r < row && c < width) || (r == row && c < col) ==> #[trigger] is_shaded(*shade, pixels@, w, top, left, r, c),
            decreases width - col,
        {
            let px = shade((row + upper_left.1, col + upper_left.0));
            proof {
                lemma_pixel_fits(w, height as nat, row as nat, col as nat);
            }
            let ghost before = pixels@;
            let n = pixels.len();
            assert(base + 3 <= n);
            pixels[base] = px[0];
            pixels[base + 1] = px[1];
            pixels[base + 2] = px[2];
            proof {
                let after = pixels@;
                assert forall|r: nat, c: nat|
                    (r < row && c < width) || (r == row && c < col) implies #[trigger] is_shaded(*shade, after, w, top, left, r, c) by {
                    lemma_pixel_order(w, r, c, row as nat, col as nat);
                    assert(is_shaded(*shade, before, w, top, left, r, c));
                    assert(pixel_bytes(after, w, r, c) =~= pixel_bytes(before, w, r, c));
                }
                assert(pixel_bytes(after, w, row as nat, col as nat) =~= px@);
                assert(is_shaded(*shade, after, w, top, left, row as nat, col as nat));
            }
            base = base + 3;
            col = col + 1;
        }
        proof {
            assert((row * w + w) * 3 == ((row + 1) * w + 0) * 3) by (nonlinear_arith);
        }
        row = row + 1;
    }
}

/// The bytes of `parts` one after another.
pub open spec fn joined(parts: Seq<Seq<u8>>) -> Seq<u8>
    decreases parts.len(),
{
    if parts.len() == 0 {
        Seq::empty()
    } else {
        joined(parts.drop_last()) + parts.last()
    }
}

/// The contents of each buffer of `parts`.
pub open spec fn contents(parts: Seq<Vec<u8>>) -> Seq<Seq<u8>> {
    Seq::new(parts.len(), |k: int| parts[k]@)
}

/// Puts the buffers of the bands back together, in order, into the buffer
/// of the whole image.
pub fn join_bands(parts: &Vec<Vec<u8>>) -> (r: Vec<u8>)
    requires
        joined(contents(parts@)).len() <= usize::MAX,
    ensures
        r@ == joined(contents(parts@)),
{
    let mut r: Vec<u8> = Vec::new();
    let mut k: usize = 0;
    assert(contents(parts@).take(0) =~= Seq::<Seq<u8>>::empty());
    while k < parts.len()
        invariant
            k <= parts@.len(),
            joined(contents(parts@)).len() <= usize::MAX,
            r@ == joined(contents(parts@).take(k as int)),
        decreases parts@.len() - k,
    {
        let part = &parts[k];
        let mut i: usize = 0;
        let ghost start = r@;
        proof {
            lemma_joined_prefix_len(contents(parts@), k as int + 1);
            assert(contents(parts@).take(k as int + 1).drop_last() =~= contents(parts@).take(k as int));
            assert(joined(contents(parts@).take(k as int + 1)) == start + part@);
        }
        while i < part.len()
            invariant
                i <= part@.len(),
                r@ == start + part@.subrange(0, i as int),
                start.len() + part@.len() <= usize::MAX,
            decreases part@.len() - i,
        {
            r.push(part[i]);
            i = i + 1;
            assert(r@ =~= start + part@.subrange(0, i as int));
        }
        assert(part@.subrange(0, part@.len() as int) =~= part@);
        k = k + 1;
    }
    assert(contents(parts@).take(parts@.len() as int) =~= contents(parts@));
    r
}

proof fn lemma_joined_prefix_len(parts: Seq<Seq<u8>>, m: int)
    requires
        0 <= m <= parts.len(),
    ensures
        joined(parts.take(m)).len() <= joined(parts).len(),
    decreases parts.len(),
{
    if m < parts.len() {
        assert(parts.drop_last().take(m) =~= parts.take(m));
        lemma_joined_prefix_len(parts.drop_last(), m);
    } else {
        assert(parts.take(m) =~= parts);
    }
}

/// `part` is the buffer of band `b` of an image `width` pixels wide, and
/// each of its pixels holds a color that `shade` gives for the pixel's
/// place in the image.
pub open spec fn band_shaded<F: Fn((usize, usize)) -> [u8; 3]>(shade: F, part: Seq<u8>, width: nat, b: Band) -> bool {
    &&& part.len() == b.height * width * 3
    &&& forall|r: nat, c: nat|
        r < b.height && c < width ==> #[trigger] is_shaded(shade, part, width, b.top as nat, 0, r, c)
}

/// The row just after the first `m` bands.
pub open spec fn rows_before(bands: Seq<Band>, m: int) -> nat {
    if m <= 0 {
        0
    } else {
        (bands[m - 1].top + bands[m - 1].height) as nat
    }
}

proof fn lemma_bands_contiguous(bands: Seq<Band>, height: nat, threads: nat, m: int)
    requires
        threads > 0,
        is_layout(bands, height, threads),
        0 <= m <= bands.len(),
    ensures
        m < bands.len() ==> bands[m].top == rows_before(bands, m),
        m == bands.len() ==> rows_before(bands, m) == height,
{
    let rows = spec_rows_per_band(height, threads);
    let n = bands.len();
    if m < n {
        assert(is_band(bands[m], height, rows, m as nat));
        if m == 0 {
            assert(0 * rows == 0);
        } else {
            assert(is_band(bands[m - 1], height, rows, (m - 1) as nat));
            assert(m * rows <= (n - 1) * rows && (m - 1) * rows + rows == m * rows) by (nonlinear_arith)
                requires
                    1 <= m <= n - 1,
            ;
        }
    } else if n == 0 {
        assert(height == 0);
    } else {
        assert(is_band(bands[n - 1], height, rows, (n - 1) as nat));
        assert((n - 1) * rows + rows == n * rows) by (nonlinear_arith);
    }
}

proof fn lemma_pixel_shift(width: nat, e: nat, r: nat, c: nat)
    ensures
        pixel_offset(width, e + r, c) == e * width * 3 + pixel_offset(width, r, c),
{
    assert(((e + r) * width + c) * 3 == e * width * 3 + (r * width + c) * 3) by (nonlinear_arith);
}

proof fn lemma_join_prefix<F: Fn((usize, usize)) -> [u8; 3]>(
    bands: Seq<Band>,
    height: nat,
    threads: nat,
    width: nat,
    parts: Seq<Seq<u8>>,
    shade: F,
    m: int,
)
    requires
        threads > 0,
        is_layout(bands, height, threads),
        parts.len() == bands.len(),
        forall|k: int| 0 <= k < bands.len() ==> band_shaded(shade, #[trigger] parts[k], width, bands[k]),
        0 <= m <= bands.len(),
    ensures
        joined(parts.take(m)).len() == rows_before(bands, m) * width * 3,
        forall|r: nat, c: nat|
            r < rows_before(bands, m) && c < width ==> #[trigger] is_shaded(shade, joined(parts.take(m)), width, 0, 0, r, c),
    decreases m,
{
    if m == 0 {
        assert(parts.take(0) =~= Seq::<Seq<u8>>::empty());
        assert(0 * width * 3 == 0);
    } else {
        let k = m - 1;
        lemma_join_prefix(bands, height, threads, width, parts, shade, k);
        lemma_bands_contiguous(bands, height, threads, k);
        let e = rows_before(bands, k);
        let b = bands[k];
        let part = parts[k];
        assert(band_shaded(shade, part, width, b));
        let front = joined(parts.take(k));
        assert(parts.take(m).drop_last() =~= parts.take(k));
        let all = joined(parts.take(m));
        assert(all == front + part);
        assert(e * width * 3 + b.height * width * 3 == (e + b.height) * width * 3) by (nonlinear_arith);
        assert forall|r: nat, c: nat| r < rows_before(bands, m) && c < width implies #[trigger] is_shaded(shade, all, width, 0, 0, r, c) by {
            if r < e {
                lemma_pixel_fits(width, e, r, c);
                assert(width * e * 3 == e * width * 3) by (nonlinear_arith);
                assert(is_shaded(shade, front, width, 0, 0, r, c));
                assert(pixel_bytes(all, width, r, c) =~= pixel_bytes(front, width, r, c));
            } else {
                let lr = (r - e) as nat;
                lemma_pixel_shift(width, e, lr, c);
                lemma_pixel_fits(width, b.height as nat, lr, c);
                assert(width * b.height * 3 == b.height * width * 3) by (nonlinear_arith);
                assert(is_shaded(shade, part, width, b.top as nat, 0, lr, c));
                assert(pixel_bytes(all, width, r, c) =~= pixel_bytes(part, width, lr, c));
            }
        }
    }
}

/// However the rows of the image are divided among workers, the buffers of
/// the bands, each filled by shading its own pixels, put together hold the
/// whole image: every pixel holds a color that `shade` gives for that
/// pixel's (row, column). The number of workers does not show in the result.
pub proof fn lemma_join_layout<F: Fn((usize, usize)) -> [u8; 3]>(
    bands: Seq<Band>,
    height: nat,
    threads: nat,
    width: nat,
    parts: Seq<Seq<u8>>,
    shade: F,
)
    requires
        threads > 0,
        is_layout(bands, height, threads),
        parts.len() == bands.len(),
        forall|k: int| 0 <= k < bands.len() ==> band_shaded(shade, #[trigger] parts[k], width, bands[k]),
    ensures
        joined(parts).len() == height * width * 3,
        forall|r: nat, c: nat| r < height && c < width ==> #[trigger] is_shaded(shade, joined(parts), width, 0, 0, r, c),
{
    lemma_join_prefix(bands, height, threads, width, parts, shade, bands.len() as int);
    lemma_bands_contiguous(bands, height, threads, bands.len() as int);
    assert(parts.take(bands.len() as int) =~= parts);
}

/// `shade` gives one color for each place in the image.
pub open spec fn is_function<F: Fn((usize, usize)) -> [u8; 3]>(shade: F) -> bool {
    forall|p: (usize, usize), a: [u8; 3], b: [u8; 3]|
        #![trigger shade.ensures((p,), a), shade.ensures((p,), b)]
        shade.ensures((p,), a) && shade.ensures((p,), b) ==> a == b
}

proof fn lemma_index_pixel(width: nat, height: nat, i: int) -> (rck: (nat, nat, nat))
    requires
        0 <= i < height * width * 3,
    ensures
        rck.0 < height,
        rck.1 < width,
        rck.2 < 3,
        i == pixel_offset(width, rck.0, rck.1) + rck.2,
{
    let p = i / 3;
    let k = i % 3;
    vstd::arithmetic::div_mod::lemma_fundamental_div_mod(i, 3);
    assert(width > 0) by (nonlinear_arith)
        requires
            0 <= i < height * width * 3,
    ;
    let r = p / width as int;
    let c = p % width as int;
    vstd::arithmetic::div_mod::lemma_fundamental_div_mod(p, width as int);
    assert(0 <= p && 0 <= r) by (nonlinear_arith)
        requires
            i >= 0,
            p == i / 3,
            r == p / width as int,
            width > 0,
    ;
    assert(r < height) by (nonlinear_arith)
        requires
            i == 3 * p + k,
            0 <= k < 3,
            p == width * r + c,
            0 <= c,
            i < height * width * 3,
            width > 0,
    ;
    (r as nat, c as nat, k as nat)
}

/// With a shading function that gives one color for each place, the image
/// put together from the bands is the same byte for byte whatever number
/// of workers the rows were divided among.
pub proof fn lemma_thread_count_irrelevant<F: Fn((usize, usize)) -> [u8; 3]>(
    height: nat,
    width: nat,
    threads1: nat,
    bands1: Seq<Band>,
    parts1: Seq<Seq<u8>>,
    threads2: nat,
    bands2: Seq<Band>,
    parts2: Seq<Seq<u8>>,
    shade: F,
)
    requires
        threads1 > 0,
        threads2 > 0,
        is_layout(bands1, height, threads1),
        is_layout(bands2, height, threads2),
        parts1.len() == bands1.len(),
        parts2.len() == bands2.len(),
        forall|k: int| 0 <= k < bands1.len() ==> band_shaded(shade, #[trigger] parts1[k], width, bands1[k]),
        forall|k: int| 0 <= k < bands2.len() ==> band_shaded(shade, #[trigger] parts2[k], width, bands2[k]),
        is_function(shade),
    ensures
        joined(parts1) == joined(parts2),
{
    lemma_join_layout(bands1, height, threads1, width, parts1, shade);
    lemma_join_layout(bands2, height, threads2, width, parts2, shade);
    let j1 = joined(parts1);
    let j2 = joined(parts2);
    assert forall|i: int| 0 <= i < j1.len() implies j1[i] == j2[i] by {
        let (r, c, k) = lemma_index_pixel(width, height, i);
        assert(is_shaded(shade, j1, width, 0, 0, r, c));
        assert(is_shaded(shade, j2, width, 0, 0, r, c));
        let a = choose|px: [u8; 3]|
            shade.ensures((((0 + r) as usize, (0 + c) as usize),), px) && pixel_bytes(j1, width, r, c) == px@;
        let b = choose|px: [u8; 3]|
            shade.ensures((((0 + r) as usize, (0 + c) as usize),), px) && pixel_bytes(j2, width, r, c) == px@;
        assert(a == b);
        assert(pixel_bytes(j1, width, r, c)[k as int] == j1[i]);
        assert(pixel_bytes(j2, width, r, c)[k as int] == j2[i]);
    }
    assert(j1 =~= j2);
}

} // verus!
