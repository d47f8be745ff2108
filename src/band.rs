use vstd::prelude::*;

verus! {

// Rows and columns of the image plane are numbered two ways. World rows grow
// upwards and are centred on the eye: an image of `vres` rows spans the world
// rows `row_base(vres) .. row_top(vres)`. Image rows grow downwards from 0 at
// the top. Columns are centred the same way and grow in the same direction
// in both numberings.

/// Lowest world row of an image with `vres` rows.
pub open spec fn row_base(vres: int) -> int {
    -(vres / 2)
}

/// One past the highest world row of an image with `vres` rows.
pub open spec fn row_top(vres: int) -> int {
    vres - vres / 2
}

/// Image row (0 at the top) of world row `y`.
pub open spec fn image_row(vres: int, y: int) -> int {
    row_top(vres) - 1 - y
}

/// World row of image row `r`.
pub open spec fn world_row(vres: int, r: int) -> int {
    row_top(vres) - 1 - r
}

/// World column of image column `c`.
pub open spec fn world_col(hres: int, c: int) -> int {
    c - hres / 2
}

/// Rows in every band but the last, which also takes the remainder.
pub open spec fn band_height(vres: int, workers: int) -> int {
    vres / workers
}

/// First world row of band `b` out of `workers`.
pub open spec fn band_low(vres: int, workers: int, b: int) -> int {
    row_base(vres) + b * band_height(vres, workers)
}

/// One past the last world row of band `b` out of `workers`.
pub open spec fn band_high(vres: int, workers: int, b: int) -> int {
    if b == workers - 1 {
        row_top(vres)
    } else {
        band_low(vres, workers, b + 1)
    }
}

pub open spec fn band_contains(vres: int, workers: int, b: int, y: int) -> bool {
    band_low(vres, workers, b) <= y < band_high(vres, workers, b)
}

/// The band that renders world row `y`.
pub open spec fn band_of_row(vres: int, workers: int, y: int) -> int {
    let h = band_height(vres, workers);
    if h == 0 {
        workers - 1
    } else if (y - row_base(vres)) / h < workers - 1 {
        (y - row_base(vres)) / h
    } else {
        workers - 1
    }
}

proof fn lemma_band_height(vres: int, workers: int)
    requires
        vres >= 0,
        workers >= 1,
    ensures
        0 <= band_height(vres, workers),
        workers * band_height(vres, workers) <= vres,
{
    let h = band_height(vres, workers);
    vstd::arithmetic::div_mod::lemma_fundamental_div_mod(vres, workers);
    vstd::arithmetic::div_mod::lemma_div_pos_is_pos(vres, workers);
    assert(workers * h <= vres) by (nonlinear_arith)
        requires
            vres == workers * h + vres % workers,
            vres % workers >= 0,
    ;
}

/// Bands start in order and the first one starts at the lowest row.
proof fn lemma_band_low_ordered(vres: int, workers: int, i: int, j: int)
    requires
        vres >= 0,
        workers >= 1,
        0 <= i <= j <= workers,
    ensures
        band_low(vres, workers, 0) == row_base(vres),
        band_low(vres, workers, i) <= band_low(vres, workers, j),
        band_low(vres, workers, j) <= row_base(vres) + vres,
{
    let h = band_height(vres, workers);
    lemma_band_height(vres, workers);
    assert(i * h <= j * h && j * h <= workers * h) by (nonlinear_arith)
        requires
            0 <= i <= j <= workers,
            0 <= h,
    ;
}

/// A band lies within the image, and its rows run upwards.
pub(crate) proof fn lemma_band_within_image(vres: int, workers: int, b: int)
    requires
        vres >= 0,
        workers >= 1,
        0 <= b < workers,
    ensures
        row_base(vres) <= band_low(vres, workers, b) <= band_high(vres, workers, b) <= row_top(vres),
{
    lemma_band_low_ordered(vres, workers, b, b + 1);
}

/// Every world row of the image lies in exactly one band, and that band is
/// `band_of_row`: however many workers share the image, each row is rendered
/// once, and by one of them.
pub proof fn lemma_every_row_in_one_band(vres: int, workers: int, y: int)
    requires
        vres >= 0,
        workers >= 1,
        row_base(vres) <= y < row_top(vres),
    ensures
        0 <= band_of_row(vres, workers, y) < workers,
        band_contains(vres, workers, band_of_row(vres, workers, y), y),
        forall|j: int|
            0 <= j < workers && #[trigger] band_contains(vres, workers, j, y) ==> j
                == band_of_row(vres, workers, y),
{
    let h = band_height(vres, workers);
    let b = band_of_row(vres, workers, y);
    let base = row_base(vres);
    lemma_band_height(vres, workers);
    if h == 0 {
        lemma_band_low_ordered(vres, workers, 0, workers - 1);
        assert(band_low(vres, workers, workers - 1) == base) by (nonlinear_arith)
            requires
                h == 0,
                band_low(vres, workers, workers - 1) == base + (workers - 1) * h,
        ;
    } else {
        let q = (y - base) / h;
        vstd::arithmetic::div_mod::lemma_fundamental_div_mod(y - base, h);
        vstd::arithmetic::div_mod::lemma_div_pos_is_pos(y - base, h);
        let r = (y - base) % h;
        assert(q * h <= y - base < (q + 1) * h) by (nonlinear_arith)
            requires
                y - base == h * q + r,
                0 <= r < h,
        ;
        if q < workers - 1 {
            assert(b == q);
        } else {
            assert((workers - 1) * h <= q * h) by (nonlinear_arith)
                requires
                    workers - 1 <= q,
                    0 < h,
            ;
        }
    }
    assert(band_contains(vres, workers, b, y));
    assert forall|j: int| 0 <= j < workers && #[trigger] band_contains(vres, workers, j, y) implies j
        == b by {
        if j < b {
            lemma_band_low_ordered(vres, workers, j + 1, b);
        } else if j > b {
            lemma_band_low_ordered(vres, workers, b + 1, j);
        }
    }
}

/// World rows `low .. high` of band `band` when `workers` workers share an
/// image of `vres` rows.
pub fn band_bounds(vres: u32, workers: u32, band: u32) -> (r: (i64, i64))
    requires
        workers >= 1,
        band < workers,
    ensures
        r.0 == band_low(vres as int, workers as int, band as int),
        r.1 == band_high(vres as int, workers as int, band as int),
        row_base(vres as int) <= r.0 <= r.1 <= row_top(vres as int),
{
    proof {
        lemma_band_within_image(vres as int, workers as int, band as int);
        lemma_band_height(vres as int, workers as int);
    }
    let h: u32 = vres / workers;
    let base: i64 = -((vres / 2) as i64);
    let top: i64 = vres as i64 - (vres / 2) as i64;
    assert(band as int * h <= vres) by (nonlinear_arith)
        requires
            band < workers,
            workers * h <= vres,
            0 <= h,
    ;
    let low: i64 = base + band as i64 * h as i64;
    let high: i64 = if band == workers - 1 {
        top
    } else {
        assert((band as int + 1) * h <= vres) by (nonlinear_arith)
            requires
                band + 1 <= workers,
                workers * h <= vres,
                0 <= h,
        ;
        base + (band as i64 + 1) * h as i64
    };
    (low, high)
}

/// The band that renders image row `row` (0 at the top).
pub fn band_of_image_row(vres: u32, workers: u32, row: u32) -> (r: u32)
    requires
        workers >= 1,
        row < vres,
    ensures
        r == band_of_row(vres as int, workers as int, world_row(vres as int, row as int)),
        r < workers,
        band_contains(vres as int, workers as int, r as int, world_row(vres as int, row as int)),
{
    proof {
        lemma_every_row_in_one_band(vres as int, workers as int, world_row(vres as int, row as int));
    }
    let h: u32 = vres / workers;
    if h == 0 {
        workers - 1
    } else {
        let q: u32 = (vres - 1 - row) / h;
        if q < workers - 1 {
            q
        } else {
            workers - 1
        }
    }
}

} // verus!
