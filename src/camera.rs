//! How the camera shares an image among worker threads and where their
//! results land in the frame buffer.
use vstd::prelude::*;

use vstd::arithmetic::div_mod::{
    lemma_div_is_ordered, lemma_div_multiples_vanish,
};

verus! {

/// The first row of worker `index`'s band when `height` rows are shared
/// among `workers`; worker `index` renders up to the first row of the next.
pub open spec fn band_start(index: int, workers: int, height: int) -> int {
    index * height / workers
}

/// The rows that worker `index` of `workers` renders, as a half-open range:
/// from its own band start up to the next worker's. Consecutive bands meet,
/// the first starts at row 0 and the last ends at `height`, so together the
/// bands partition the image.
pub fn row_band(index: usize, workers: usize, height: usize) -> (r: (usize, usize))
    requires
        index < workers,
        workers * height <= usize::MAX,
    ensures
        r.0 == band_start(index as int, workers as int, height as int),
        r.1 == band_start(index + 1, workers as int, height as int),
        r.0 <= r.1 <= height,
        index + 1 == workers ==> r.1 == height,
{
    proof {
        let n = workers as int;
        let h = height as int;
        assert(index * h <= (index + 1) * h <= n * h) by (nonlinear_arith)
            requires
                0 <= index < n,
                0 <= h,
        ;
        lemma_div_is_ordered(index * h, (index + 1) * h, n);
        lemma_div_is_ordered((index + 1) * h, n * h, n);
        lemma_div_multiples_vanish(h, n);
    }
    let start = index * height / workers;
    let end = (index + 1) * height / workers;
    (start, end)
}

proof fn lemma_row_in_some_band(n: int, workers: int, height: int, y: int)
    requires
        0 < n <= workers,
        0 <= band_start(0, workers, height) <= y < band_start(n, workers, height),
    ensures
        exists|i: int| 0 <= i < n && #[trigger] band_start(i, workers, height) <= y < band_start(i + 1, workers, height),
    decreases n,
{
    if y < band_start(n - 1, workers, height) {
        lemma_row_in_some_band(n - 1, workers, height, y);
        let i = choose|i: int| 0 <= i < n - 1 && #[trigger] band_start(i, workers, height) <= y < band_start(i + 1, workers, height);
        assert(0 <= i < n);
    } else {
        assert(band_start(n - 1, workers, height) <= y < band_start(n - 1 + 1, workers, height));
    }
}

/// The bands cover the image: every row lies in the band of some worker.
pub proof fn bands_cover_rows(workers: int, height: int, y: int)
    requires
        0 < workers,
        0 <= y < height,
    ensures
        exists|i: int|
            0 <= i < workers && #[trigger] band_start(i, workers, height) <= y < band_start(i + 1, workers, height),
{
    assert(0 * height == 0);
    lemma_div_multiples_vanish(height, workers);
    assert(workers * height == height * workers) by (nonlinear_arith);
    lemma_row_in_some_band(workers, workers, height, y);
}

/// The frame-buffer row of image row `y`: images are rendered bottom row
/// first, frame buffers store the top row first.
pub fn flipped_row(height: usize, y: usize) -> (r: usize)
    requires
        y < height,
    ensures
        r == height - y - 1,
{
    height - y - 1
}

} // verus!
