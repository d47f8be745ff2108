use vstd::prelude::*;
use crate::band::{
    band_bounds, band_contains, band_high, band_low, band_of_row, image_row,
    lemma_band_within_image, lemma_every_row_in_one_band, row_base, row_top, world_col, world_row,
};
use crate::grid::ViewGrid;

verus! {

/// One sample to trace: a cell of the stratified grid over one pixel.
#[derive(Debug, Clone, Copy, PartialEq, Eq, Structural)]
pub struct PixelJob {
    /// World column of the pixel.
    pub x: i64,
    /// World row of the pixel.
    pub y: i64,
    /// Image column of the pixel (0 at the left).
    pub img_x: u32,
    /// Image row of the pixel (0 at the top).
    pub img_y: u32,
    /// Column of the cell within the pixel's sampling grid.
    pub sub_x: u32,
    /// Row of the cell within the pixel's sampling grid.
    pub sub_y: u32,
    /// Number of the pass this sample belongs to, counting from 1.
    pub sample_no: u32,
}

/// What a worker does next.
#[derive(Debug, Clone, Copy, PartialEq, Eq, Structural)]
pub enum WorkStep {
    /// Trace one sample and report its colour.
    Trace(PixelJob),
    /// Report that pass `.0` over the band `.1` is complete.
    SampleComplete(u32, u32),
    /// Report that band `.0` is finished.
    End(u32),
    /// Nothing is left to do.
    Done,
}

/// A worker's band and how far through it the worker is: `index` is the
/// number of steps already taken.
pub ghost struct ScheduleView {
    pub hres: int,
    pub vres: int,
    pub side: int,
    pub band: int,
    pub low: int,
    pub high: int,
    pub index: int,
}

impl ScheduleView {
    /// The shape every schedule keeps: a band within an image whose sizes
    /// fit a `u32`, a non-empty square sampling grid whose passes are
    /// counted by a `u32`, and a position no further than one past the
    /// final `End`.
    pub open spec fn inv(self) -> bool {
        &&& 0 <= self.hres <= u32::MAX
        &&& 0 <= self.vres <= u32::MAX
        &&& self.side >= 1
        &&& self.passes() <= u32::MAX
        &&& row_base(self.vres) <= self.low <= self.high <= row_top(self.vres)
        &&& 0 <= self.index <= self.end_index() + 1
    }

    pub open spec fn rows(self) -> int {
        self.high - self.low
    }

    pub open spec fn passes(self) -> int {
        self.side * self.side
    }

    /// Steps of one pass: one per pixel of the band, then the report.
    pub open spec fn pass_len(self) -> int {
        self.rows() * self.hres + 1
    }

    /// Index of the final `End` step.
    pub open spec fn end_index(self) -> int {
        self.passes() * self.pass_len()
    }

    /// The `i`-th sample of pass `p`: pixels are visited row by row from the
    /// lowest world row up, each row from left to right; passes walk the
    /// cells of the sampling grid row by row.
    pub open spec fn job(self, p: int, i: int) -> PixelJob {
        let y = self.low + i / self.hres;
        let c = i % self.hres;
        PixelJob {
            x: world_col(self.hres, c) as i64,
            y: y as i64,
            img_x: c as u32,
            img_y: image_row(self.vres, y) as u32,
            sub_x: (p % self.side) as u32,
            sub_y: (p / self.side) as u32,
            sample_no: (p + 1) as u32,
        }
    }

    /// Step number `k` of the worker.
    pub open spec fn step_at(self, k: int) -> WorkStep {
        if 0 <= k < self.end_index() {
            let p = k / self.pass_len();
            let i = k % self.pass_len();
            if i < self.rows() * self.hres {
                WorkStep::Trace(self.job(p, i))
            } else {
                WorkStep::SampleComplete((p + 1) as u32, self.band as u32)
            }
        } else if k == self.end_index() {
            WorkStep::End(self.band as u32)
        } else {
            WorkStep::Done
        }
    }

    /// The step that comes next.
    pub open spec fn step(self) -> WorkStep {
        self.step_at(self.index)
    }

    /// The position after taking the next step; past the end it stays put.
    pub open spec fn advance(self) -> ScheduleView {
        ScheduleView {
            index: if self.index <= self.end_index() {
                self.index + 1
            } else {
                self.index
            },
            ..self
        }
    }
}

/// Band `band` of `workers` over a grid of `hres` by `vres` pixels sampled on
/// a `side` by `side` grid, before its first step.
pub open spec fn band_schedule(hres: int, vres: int, side: int, workers: int, band: int) -> ScheduleView {
    ScheduleView {
        hres,
        vres,
        side,
        band,
        low: band_low(vres, workers, band),
        high: band_high(vres, workers, band),
        index: 0,
    }
}

/// The order in which one worker renders its band of the image, pass after
/// pass, and the reports it sends between passes.
pub struct WorkerSchedule {
    hres: u32,
    vres: u32,
    side: u32,
    band: u32,
    low: i64,
    high: i64,
    pass: u32,
    row: i64,
    col: u32,
    ended: bool,
}

impl View for WorkerSchedule {
    type V = ScheduleView;

    closed spec fn view(&self) -> ScheduleView {
        let v = ScheduleView {
            hres: self.hres as int,
            vres: self.vres as int,
            side: self.side as int,
            band: self.band as int,
            low: self.low as int,
            high: self.high as int,
            index: 0,
        };
        ScheduleView {
            index: if self.ended {
                v.end_index() + 1
            } else if self.pass as int == v.passes() {
                v.end_index()
            } else {
                self.pass * v.pass_len() + (self.row - self.low) * self.hres + self.col
            },
            ..v
        }
    }
}

impl WorkerSchedule {
    pub closed spec fn wf(&self) -> bool {
        &&& self.side >= 1
        &&& self.side * self.side <= u32::MAX
        &&& row_base(self.vres as int) <= self.low <= self.high <= row_top(self.vres as int)
        &&& self.pass <= self.side * self.side
        &&& self.ended ==> self.pass == self.side * self.side
        &&& self.low <= self.row <= self.high
        &&& self.row < self.high ==> self.col < self.hres
        &&& self.row == self.high ==> self.col == 0
        &&& self.hres == 0 ==> self.row == self.high
    }

    proof fn lemma_view_inv(&self)
        requires
            self.wf(),
        ensures
            self@.inv(),
    {
        let v = self@;
        lemma_passes_fit(self.side as int);
        assert(v.pass_len() >= 1 && v.end_index() >= 0) by (nonlinear_arith)
            requires
                v.rows() >= 0,
                v.hres >= 0,
                v.passes() >= 1,
                v.pass_len() == v.rows() * v.hres + 1,
                v.end_index() == v.passes() * v.pass_len(),
        ;
        if !self.ended && (self.pass as int) < v.passes() {
            lemma_position(v, self.pass as int, self.row - self.low, self.col as int);
        }
    }

    /// The schedule of band `band` out of `workers`, before its first step.
    pub fn new(grid: &ViewGrid, workers: u32, band: u32) -> (r: WorkerSchedule)
        requires
            grid.wf(),
            workers >= 1,
            band < workers,
        ensures
            r.wf(),
            r@.inv(),
            r@ == band_schedule(
                grid.hres() as int,
                grid.vres() as int,
                grid.side() as int,
                workers as int,
                band as int,
            ),
    {
        assert(grid.side() >= 1) by (nonlinear_arith)
            requires
                grid.side() * grid.side() >= 1,
        ;
        let (low, high) = band_bounds(grid.vres(), workers, band);
        let hres = grid.hres();
        let row = if hres == 0 {
            high
        } else {
            low
        };
        let r = WorkerSchedule {
            hres,
            vres: grid.vres(),
            side: grid.side(),
            band,
            low,
            high,
            pass: 0,
            row,
            col: 0,
            ended: false,
        };
        proof {
            let v = r@;
            if hres == 0 {
                assert((r.row - r.low) * r.hres == 0) by (nonlinear_arith)
                    requires
                        r.hres == 0,
                ;
            }
            assert(v.passes() >= 1) by (nonlinear_arith)
                requires
                    v.side >= 1,
                    v.passes() == v.side * v.side,
            ;
        }
        proof {
            r.lemma_view_inv();
        }
        r
    }

    /// Takes the next step of the schedule.
    pub fn next(&mut self) -> (r: WorkStep)
        requires
            old(self).wf(),
        ensures
            final(self).wf(),
            final(self)@.inv(),
            r == old(self)@.step(),
            final(self)@ == old(self)@.advance(),
    {
        let ghost v = self@;
        proof {
            lemma_passes_fit(self.side as int);
        }
        if self.ended {
            proof {
                self.lemma_view_inv();
            }
            return WorkStep::Done;
        }
        let passes: u32 = self.side * self.side;
        if self.pass == passes {
            self.ended = true;
            proof {
                self.lemma_view_inv();
            }
            return WorkStep::End(self.band);
        }
        let ghost i = (self.row - self.low) * self.hres + self.col;
        proof {
            lemma_position(v, self.pass as int, self.row - self.low, self.col as int);
        }
        if self.row == self.high {
            let sample_no = self.pass + 1;
            proof {
                let len = v.pass_len();
                assert((sample_no as int) * len == (self.pass as int) * len + len)
                    by (nonlinear_arith)
                    requires
                        sample_no == self.pass + 1,
                ;
            }
            self.pass = sample_no;
            self.row = if self.hres == 0 {
                self.high
            } else {
                self.low
            };
            self.col = 0;
            proof {
                assert((self.row - self.low) * self.hres == 0) by (nonlinear_arith)
                    requires
                        self.hres == 0 || self.row == self.low,
                ;
            }
            proof {
                self.lemma_view_inv();
            }
            return WorkStep::SampleComplete(sample_no, self.band);
        }
        let top: i64 = self.vres as i64 - (self.vres / 2) as i64;
        let job = PixelJob {
            x: self.col as i64 - (self.hres / 2) as i64,
            y: self.row,
            img_x: self.col,
            img_y: (top - 1 - self.row) as u32,
            sub_x: self.pass % self.side,
            sub_y: self.pass / self.side,
            sample_no: self.pass + 1,
        };
        if self.col + 1 == self.hres {
            let ghost row0 = self.row - self.low;
            let ghost h = self.hres as int;
            self.col = 0;
            self.row = self.row + 1;
            proof {
                assert((row0 + 1) * h == row0 * h + h) by (nonlinear_arith);
            }
        } else {
            self.col = self.col + 1;
        }
        proof {
            self.lemma_view_inv();
        }
        WorkStep::Trace(job)
    }
}

proof fn lemma_passes_fit(side: int)
    requires
        side >= 1,
    ensures
        side * side >= 1,
{
    assert(side * side >= 1) by (nonlinear_arith)
        requires
            side >= 1,
    ;
}

/// Where a position inside a pass falls: before the end of the schedule, in
/// pass `p`, at offset `i = rr * hres + c` within it, which is a pixel when
/// `rr` is one of the band's rows.
proof fn lemma_position(v: ScheduleView, p: int, rr: int, c: int)
    requires
        v.hres >= 0,
        v.side >= 1,
        0 <= p < v.passes(),
        0 <= rr <= v.rows(),
        rr < v.rows() ==> 0 <= c < v.hres,
        rr == v.rows() ==> c == 0,
    ensures
        ({
            let i = rr * v.hres + c;
            let k = p * v.pass_len() + i;
            &&& 0 <= i < v.pass_len()
            &&& 0 <= k < v.end_index()
            &&& k / v.pass_len() == p
            &&& k % v.pass_len() == i
            &&& (rr < v.rows() <==> i < v.rows() * v.hres)
            &&& rr < v.rows() ==> i / v.hres == rr && i % v.hres == c
        }),
{
    let i = rr * v.hres + c;
    let len = v.pass_len();
    let rows = v.rows();
    let h = v.hres;
    if rr < rows {
        assert(rr * h + c < rows * h) by (nonlinear_arith)
            requires
                0 <= rr < rows,
                0 <= c < h,
        ;
        assert(0 <= rr * h) by (nonlinear_arith)
            requires
                0 <= rr,
                0 <= h,
        ;
        vstd::arithmetic::div_mod::lemma_fundamental_div_mod_converse(i, h, rr, c);
    } else {
        assert(i == rows * h);
    }
    assert(0 <= rows * h) by (nonlinear_arith)
        requires
            0 <= rows,
            0 <= h,
    ;
    assert(p * len + i < v.passes() * len) by (nonlinear_arith)
        requires
            0 <= p < v.passes(),
            0 <= i < len,
    ;
    assert(0 <= p * len) by (nonlinear_arith)
        requires
            0 <= p,
            0 <= len,
    ;
    vstd::arithmetic::div_mod::lemma_fundamental_div_mod_converse(p * len + i, len, p, i);
}

/// The step at which a schedule traces pass `p` over the pixel in world row
/// `y` and image column `c`.
pub open spec fn trace_index(v: ScheduleView, p: int, y: int, c: int) -> int {
    p * v.pass_len() + (y - v.low) * v.hres + c
}

/// Whether step `k` of `v` traces pass `p` over image pixel `(c, r)`.
pub open spec fn traces(v: ScheduleView, k: int, p: int, c: int, r: int) -> bool {
    v.step_at(k) matches WorkStep::Trace(job) && job.img_x == c && job.img_y == r && job.sample_no
        == p + 1
}

/// Within one band's schedule, pass `p` over a pixel of the band is traced at
/// step `trace_index` and at no other step.
proof fn lemma_band_traces_once(v: ScheduleView, p: int, y: int, c: int)
    requires
        0 <= v.hres <= u32::MAX,
        0 <= v.vres <= u32::MAX,
        v.side >= 1,
        v.passes() <= u32::MAX,
        row_base(v.vres) <= v.low <= v.high <= row_top(v.vres),
        0 <= p < v.passes(),
        v.low <= y < v.high,
        0 <= c < v.hres,
    ensures
        v.step_at(trace_index(v, p, y, c)) == WorkStep::Trace(v.job(p, (y - v.low) * v.hres + c)),
        traces(v, trace_index(v, p, y, c), p, c, image_row(v.vres, y)),
        forall|k: int| #[trigger] traces(v, k, p, c, image_row(v.vres, y)) ==> k == trace_index(v, p, y, c),
{
    let len = v.pass_len();
    let h = v.hres;
    lemma_position(v, p, y - v.low, c);
    assert forall|k: int| #[trigger] traces(v, k, p, c, image_row(v.vres, y)) implies k == trace_index(v, p, y, c) by {
        let q = k / len;
        let i = k % len;
        vstd::arithmetic::div_mod::lemma_fundamental_div_mod(k, len);
        assert(0 <= k < v.end_index());
        vstd::arithmetic::div_mod::lemma_div_pos_is_pos(k, len);
        if q >= v.passes() {
            assert(len * q >= len * v.passes()) by (nonlinear_arith)
                requires
                    q >= v.passes(),
                    len >= 1,
            ;
            assert(v.end_index() == v.passes() * len);
            assert(false);
        }
        assert(i < v.rows() * h);
        let y2 = v.low + i / h;
        assert(h > 0) by {
            if h == 0 {
                assert(v.rows() * h == 0) by (nonlinear_arith)
                    requires
                        h == 0,
                ;
            }
        }
        lemma_row_of_offset(i, h, v.rows());
        assert(q == p);
        assert(y2 == y);
        assert(i == (y - v.low) * h + c) by (nonlinear_arith)
            requires
                i == h * (i / h) + i % h,
                i / h == y - v.low,
                i % h == c,
        ;
        assert(k == p * len + i) by (nonlinear_arith)
            requires
                k == len * q + i,
                q == p,
        ;
    }
}

/// Whatever the number of workers, every sample of every pixel (pass `p`
/// over the pixel in image column `c` and image row `r`) is traced exactly
/// once: by the worker of band `band_of_row`, at step `trace_index` of its
/// schedule, and by no other worker at any other step. What is traced for it
/// depends on the pixel and the pass alone, so splitting the image among
/// more workers changes neither which samples are taken nor where.
pub proof fn lemma_each_sample_traced_once(
    hres: int,
    vres: int,
    side: int,
    workers: int,
    p: int,
    c: int,
    r: int,
)
    requires
        0 <= hres <= u32::MAX,
        0 <= vres <= u32::MAX,
        side >= 1,
        side * side <= u32::MAX,
        workers >= 1,
        0 <= p < side * side,
        0 <= c < hres,
        0 <= r < vres,
    ensures
        ({
            let y = world_row(vres, r);
            let b = band_of_row(vres, workers, y);
            let v = band_schedule(hres, vres, side, workers, b);
            &&& 0 <= b < workers
            &&& v.step_at(trace_index(v, p, y, c)) == WorkStep::Trace(
                PixelJob {
                    x: world_col(hres, c) as i64,
                    y: y as i64,
                    img_x: c as u32,
                    img_y: r as u32,
                    sub_x: (p % side) as u32,
                    sub_y: (p / side) as u32,
                    sample_no: (p + 1) as u32,
                },
            )
            &&& forall|j: int, k: int|
                0 <= j < workers && #[trigger] traces(
                    band_schedule(hres, vres, side, workers, j),
                    k,
                    p,
                    c,
                    r,
                ) ==> j == b && k == trace_index(v, p, y, c)
        }),
{
    let y = world_row(vres, r);
    let b = band_of_row(vres, workers, y);
    let v = band_schedule(hres, vres, side, workers, b);
    lemma_every_row_in_one_band(vres, workers, y);
    lemma_band_within_image(vres, workers, b);
    lemma_band_traces_once(v, p, y, c);
    let i = (y - v.low) * hres + c;
    lemma_position(v, p, y - v.low, c);
    assert(v.job(p, i).y == y);
    assert forall|j: int, k: int|
        0 <= j < workers && #[trigger] traces(
            band_schedule(hres, vres, side, workers, j),
            k,
            p,
            c,
            r,
        ) implies j == b && k == trace_index(v, p, y, c) by {
        let w = band_schedule(hres, vres, side, workers, j);
        lemma_band_within_image(vres, workers, j);
        lemma_traced_row_in_band(w, k);
        let job = w.step_at(k)->Trace_0;
        assert(image_row(vres, job.y as int) == r);
        assert(band_contains(vres, workers, j, y));
        assert(j == b);
        lemma_band_traces_once(w, p, y, c);
    }
}

/// A traced pixel lies in the schedule's band, and its image row is where
/// that band's world row falls.
proof fn lemma_traced_row_in_band(v: ScheduleView, k: int)
    requires
        0 <= v.hres <= u32::MAX,
        0 <= v.vres <= u32::MAX,
        v.side >= 1,
        row_base(v.vres) <= v.low <= v.high <= row_top(v.vres),
        v.step_at(k) is Trace,
    ensures
        v.low <= v.step_at(k)->Trace_0.y < v.high,
        v.step_at(k)->Trace_0.img_y == image_row(v.vres, v.step_at(k)->Trace_0.y as int),
{
    let len = v.pass_len();
    let h = v.hres;
    let i = k % len;
    assert(len >= 1) by (nonlinear_arith)
        requires
            len == v.rows() * h + 1,
            v.rows() >= 0,
            h >= 0,
    ;
    vstd::arithmetic::div_mod::lemma_mod_bound(k, len);
    assert(h > 0) by {
        if h == 0 {
            assert(v.rows() * h == 0) by (nonlinear_arith)
                requires
                    h == 0,
            ;
        }
    }
    assert(0 <= k < v.end_index());
    assert(i < v.rows() * h);
    lemma_row_of_offset(i, h, v.rows());
}

/// An offset below `rows * h` lies in one of the first `rows` rows of
/// width `h`.
proof fn lemma_row_of_offset(i: int, h: int, rows: int)
    requires
        0 <= i < rows * h,
        h >= 1,
    ensures
        0 <= i / h < rows,
        0 <= i % h < h,
        i == h * (i / h) + i % h,
{
    vstd::arithmetic::div_mod::lemma_fundamental_div_mod(i, h);
    vstd::arithmetic::div_mod::lemma_div_pos_is_pos(i, h);
    vstd::arithmetic::div_mod::lemma_mod_bound(i, h);
    if i / h >= rows {
        assert(i >= rows * h) by (nonlinear_arith)
            requires
                i == h * (i / h) + i % h,
                i % h >= 0,
                i / h >= rows,
                h >= 1,
        ;
    }
}

} // verus!
