//! Dividing the rows of an image into contiguous bands, one per worker.
use vstd::prelude::*;

verus! {

/// A horizontal slice of the image: `height` rows starting at row `top`.
#[derive(Clone, Copy, Debug, PartialEq, Eq, Structural)]
pub struct Band {
    pub top: usize,
    pub height: usize,
}

/// Number of rows in each band when an image of `height` rows is shared
/// among `threads` workers; one more than the even share, so that the last
/// band takes the remainder.
pub open spec fn spec_rows_per_band(height: nat, threads: nat) -> nat
    recommends
        threads > 0,
{
    height / threads + 1
}

/// `b` is band `k` of an image of `height` rows cut into bands of `rows`
/// rows: it starts at row `k * rows` and stops at the last row at the latest.
pub open spec fn is_band(b: Band, height: nat, rows: nat, k: nat) -> bool {
    let top = k * rows;
    &&& b.top == top
    &&& b.height == if height - top < rows { height - top } else { rows as int }
}

/// `bands` is the division of `height` rows among `threads` workers: bands
/// of `spec_rows_per_band` rows from the top, as many as it takes to reach
/// the last row.
pub open spec fn is_layout(bands: Seq<Band>, height: nat, threads: nat) -> bool {
    let rows = spec_rows_per_band(height, threads);
    &&& bands.len() * rows >= height
    &&& bands.len() == 0 || (bands.len() - 1) * rows < height
    &&& forall|k: int| 0 <= k < bands.len() ==> is_band(#[trigger] bands[k], height, rows, k as nat)
}

/// Row `row` lies in band `b`.
pub open spec fn holds_row(b: Band, row: int) -> bool {
    b.top <= row < b.top + b.height
}

pub fn rows_per_band(height: usize, threads: usize) -> (r: usize)
    requires
        threads > 0,
        height < usize::MAX,
    ensures
        r == spec_rows_per_band(height as nat, threads as nat),
{
    height / threads + 1
}

/// Some band of `bands` holds row `row`.
pub open spec fn row_covered(bands: Seq<Band>, row: int) -> bool {
    exists|k: int| 0 <= k < bands.len() && #[trigger] holds_row(bands[k], row)
}

/// A division of the rows has no more bands than workers.
proof fn lemma_layout_count(bands: Seq<Band>, height: nat, threads: nat)
    requires
        threads > 0,
        is_layout(bands, height, threads),
    ensures
        bands.len() <= threads,
{
    let rows = spec_rows_per_band(height, threads);
    let n = bands.len();
    if n > threads {
        let q = height / threads;
        vstd::arithmetic::div_mod::lemma_fundamental_div_mod(height as int, threads as int);
        assert((n - 1) * rows >= threads * rows) by (nonlinear_arith)
            requires
                n - 1 >= threads,
                rows >= 0,
        ;
        assert(threads * rows == threads * q + threads) by (nonlinear_arith)
            requires
                rows == q + 1,
        ;
    }
}

/// Divides `height` rows among `threads` workers.
pub fn band_layout(height: usize, threads: usize) -> (r: Vec<Band>)
    requires
        threads > 0,
        height < usize::MAX,
    ensures
        is_layout(r@, height as nat, threads as nat),
        r@.len() <= threads,
{
    let rows = rows_per_band(height, threads);
    let mut bands: Vec<Band> = Vec::new();
    if height == 0 {
        return bands;
    }
    let mut top: usize = 0;
    assert(bands.len() * rows == 0) by (nonlinear_arith)
        requires
            bands.len() == 0,
    ;
    loop
        invariant
            threads > 0,
            rows == spec_rows_per_band(height as nat, threads as nat),
            rows >= 1,
            top < height,
            top == bands.len() * rows,
            forall|k: int| 0 <= k < bands.len() ==> is_band(#[trigger] bands@[k], height as nat, rows as nat, k as nat),
        decreases height - top,
    {
        let ghost k = bands.len();
        if height - top <= rows {
            bands.push(Band { top, height: height - top });
            proof {
                assert(is_band(bands@[k as int], height as nat, rows as nat, k as nat));
                assert(bands.len() * rows == top + rows) by (nonlinear_arith)
                    requires
                        bands.len() == k + 1,
                        top == k * rows,
                ;
            }
            proof {
                lemma_layout_count(bands@, height as nat, threads as nat);
            }
            return bands;
        }
        bands.push(Band { top, height: rows });
        proof {
            assert(is_band(bands@[k as int], height as nat, rows as nat, k as nat));
            assert(bands.len() * rows == top + rows) by (nonlinear_arith)
                requires
                    bands.len() == k + 1,
                    top == k * rows,
            ;
        }
        top = top + rows;
    }
}

/// The bands of a division of `height` rows among `threads` workers cover
/// every row of the image exactly once: each row lies in one band and in
/// no other, every band is a non-empty range of rows of the image, and
/// there are no more bands than workers.
pub proof fn lemma_bands_partition(bands: Seq<Band>, height: nat, threads: nat)
    requires
        threads > 0,
        is_layout(bands, height, threads),
    ensures
        bands.len() <= threads,
        forall|k: int| 0 <= k < bands.len() ==> #[trigger] bands[k].height > 0 && bands[k].top + bands[k].height <= height,
        forall|row: int| 0 <= row < height ==> #[trigger] row_covered(bands, row),
        forall|row: int, j: int, k: int|
            0 <= j < bands.len() && 0 <= k < bands.len() && #[trigger] holds_row(bands[j], row) && #[trigger] holds_row(bands[k], row) ==> j == k,
{
    lemma_layout_count(bands, height, threads);
    let rows = spec_rows_per_band(height, threads);
    let n = bands.len();
    assert forall|k: int| 0 <= k < n implies #[trigger] bands[k].height > 0 && bands[k].top + bands[k].height <= height by {
        assert(k * rows <= (n - 1) * rows) by (nonlinear_arith)
            requires
                0 <= k <= n - 1,
                rows >= 0,
        ;
        assert(is_band(bands[k], height, rows, k as nat));
    }
    assert forall|row: int| 0 <= row < height implies #[trigger] row_covered(bands, row) by {
        let k = row / rows as int;
        vstd::arithmetic::div_mod::lemma_fundamental_div_mod(row, rows as int);
        assert(k * rows <= row);
        assert(0 <= k) by (nonlinear_arith)
            requires
                k == row / rows as int,
                row >= 0,
                rows > 0,
        ;
        assert(k < n) by (nonlinear_arith)
            requires
                k * rows <= row,
                row < height,
                n * rows >= height,
                rows > 0,
        ;
        assert(is_band(bands[k], height, rows, k as nat));
        assert(holds_row(bands[k], row));
    }
    assert forall|row: int, j: int, k: int|
        0 <= j < n && 0 <= k < n && #[trigger] holds_row(bands[j], row) && #[trigger] holds_row(bands[k], row) implies j == k by {
        let bj = bands[j];
        let bk = bands[k];
        assert(is_band(bj, height, rows, j as nat));
        assert(is_band(bk, height, rows, k as nat));
        assert(j * rows <= row < j * rows + rows);
        assert(k * rows <= row < k * rows + rows);
        vstd::arithmetic::div_mod::lemma_fundamental_div_mod_converse(row, rows as int, j, row - j * rows);
        vstd::arithmetic::div_mod::lemma_fundamental_div_mod_converse(row, rows as int, k, row - k * rows);
    }
}

} // verus!
