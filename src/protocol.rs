use vstd::prelude::*;
use crate::accumulator::{AccumulatorView, Action, PixelInfo, ProtocolError};
use crate::band::{
    band_contains, band_of_row, image_row, lemma_band_within_image, lemma_every_row_in_one_band,
    row_base, row_top, world_row,
};
use crate::schedule::{band_schedule, ScheduleView, WorkStep};

verus! {

// How the workers' schedules and the accumulator fit together: whatever the
// order in which the messages of different workers arrive, each is accepted,
// and once every worker has ended every pixel holds all its samples.

/// The message a worker sends for `step`; `color` is the traced colour of a
/// `Trace` step. A finished worker sends nothing.
pub open spec fn message_of<C>(step: WorkStep, color: C) -> PixelInfo<C>
    recommends
        !(step is Done),
{
    match step {
        WorkStep::Trace(job) => PixelInfo::Pixel(job.img_x, job.img_y, color, job.sample_no),
        WorkStep::SampleComplete(s, b) => PixelInfo::SampleComplete(s, b),
        WorkStep::End(b) => PixelInfo::End(b),
        WorkStep::Done => PixelInfo::End(u32::MAX),
    }
}

/// The schedule of band `b` for the grid the accumulator `a` merges, with
/// `side` cells per side of the sampling grid.
pub open spec fn schedule_of(a: AccumulatorView, side: int, b: int) -> ScheduleView {
    band_schedule(a.hres, a.vres, side, a.workers, b)
}

/// Index (`row * hres + column`) of the pixel at offset `o` of band `v`.
pub open spec fn pixel_of(v: ScheduleView, o: int) -> int {
    image_row(v.vres, v.low + o / v.hres) * v.hres + o % v.hres
}

/// Band of the pixel at `idx`.
pub open spec fn band_of_pixel(a: AccumulatorView, idx: int) -> int {
    band_of_row(a.vres, a.workers, world_row(a.vres, idx / a.hres))
}

/// Offset of the pixel at `idx` within its band's pass.
pub open spec fn offset_of_pixel(a: AccumulatorView, side: int, idx: int) -> int {
    let v = schedule_of(a, side, band_of_pixel(a, idx));
    (world_row(a.vres, idx / a.hres) - v.low) * a.hres + idx % a.hres
}

/// Passes of band `v` that are complete after its first `k` steps.
pub open spec fn passes_done(v: ScheduleView, k: int) -> int {
    if k >= v.end_index() {
        v.passes()
    } else {
        k / v.pass_len()
    }
}

/// Samples at offset `o` of band `v` that are traced in its first `k` steps.
pub open spec fn samples_done(v: ScheduleView, k: int, o: int) -> int {
    if k >= v.end_index() {
        v.passes()
    } else {
        k / v.pass_len() + if k % v.pass_len() > o {
            1int
        } else {
            0int
        }
    }
}

/// `a` holds exactly what the first `ks[b]` messages of each band `b`
/// tell.
pub open spec fn received(a: AccumulatorView, side: int, ks: Seq<int>) -> bool {
    &&& 1 <= side
    &&& a.passes == side * side <= u32::MAX
    &&& 0 <= a.hres <= u32::MAX
    &&& 0 <= a.vres <= u32::MAX
    &&& 1 <= a.workers <= u32::MAX
    &&& a.counts.len() == a.hres * a.vres
    &&& a.completed.len() == a.workers
    &&& a.ended.len() == a.workers
    &&& ks.len() == a.workers
    &&& forall|b: int|
        0 <= b < a.workers ==> {
            let v = schedule_of(a, side, b);
            &&& 0 <= #[trigger] ks[b] <= v.end_index() + 1
            &&& a.completed[b] == passes_done(v, ks[b])
            &&& a.ended[b] == (ks[b] > v.end_index())
        }
    &&& forall|idx: int|
        0 <= idx < a.hres * a.vres ==> #[trigger] a.counts[idx] == samples_done(
            schedule_of(a, side, band_of_pixel(a, idx)),
            ks[band_of_pixel(a, idx)],
            offset_of_pixel(a, side, idx),
        )
}

/// A new accumulator has received nothing from any worker.
pub proof fn lemma_nothing_received(a: AccumulatorView, side: int)
    requires
        1 <= side,
        a.passes == side * side <= u32::MAX,
        0 <= a.hres <= u32::MAX,
        0 <= a.vres <= u32::MAX,
        1 <= a.workers <= u32::MAX,
        a.counts == Seq::new((a.hres * a.vres) as nat, |i: int| 0u32),
        a.completed == Seq::new(a.workers as nat, |i: int| 0u32),
        a.ended == Seq::new(a.workers as nat, |i: int| false),
    ensures
        received(a, side, Seq::new(a.workers as nat, |i: int| 0int)),
{
    let ks = Seq::new(a.workers as nat, |i: int| 0int);
    assert(a.hres * a.vres >= 0) by (nonlinear_arith)
        requires
            a.hres >= 0,
            a.vres >= 0,
    ;
    assert forall|b: int| 0 <= b < a.workers implies {
        let v = schedule_of(a, side, b);
        &&& 0 <= #[trigger] ks[b] <= v.end_index() + 1
        &&& a.completed[b] == passes_done(v, ks[b])
        &&& a.ended[b] == (ks[b] > v.end_index())
    } by {
        lemma_schedule_shape(a, side, b);
    }
    assert forall|idx: int| 0 <= idx < a.hres * a.vres implies #[trigger] a.counts[idx]
        == samples_done(
        schedule_of(a, side, band_of_pixel(a, idx)),
        ks[band_of_pixel(a, idx)],
        offset_of_pixel(a, side, idx),
    ) by {
        lemma_pixel_decompose(a, side, idx);
        lemma_schedule_shape(a, side, band_of_pixel(a, idx));
    }
}

/// The shape of a band's schedule: it lies within the image, has at least
/// one pass, and ends after its last pass.
proof fn lemma_schedule_shape(a: AccumulatorView, side: int, b: int)
    requires
        1 <= side,
        a.passes == side * side,
        0 <= a.hres,
        0 <= a.vres,
        1 <= a.workers,
        0 <= b < a.workers,
    ensures
        ({
            let v = schedule_of(a, side, b);
            &&& row_base(a.vres) <= v.low <= v.high <= row_top(a.vres)
            &&& v.passes() == a.passes >= 1
            &&& v.pass_len() >= 1
            &&& v.end_index() >= v.pass_len()
            &&& v.end_index() / v.pass_len() == v.passes()
            &&& v.end_index() % v.pass_len() == 0
            &&& v.rows() * v.hres >= 0
        }),
{
    let v = schedule_of(a, side, b);
    lemma_band_within_image(a.vres, a.workers, b);
    assert(v.rows() * v.hres >= 0) by (nonlinear_arith)
        requires
            v.rows() >= 0,
            v.hres >= 0,
    ;
    assert(v.passes() >= 1) by (nonlinear_arith)
        requires
            side >= 1,
            v.passes() == side * side,
    ;
    assert(v.end_index() >= v.pass_len()) by (nonlinear_arith)
        requires
            v.passes() >= 1,
            v.pass_len() >= 1,
            v.end_index() == v.passes() * v.pass_len(),
    ;
    vstd::arithmetic::div_mod::lemma_fundamental_div_mod_converse(
        v.end_index(),
        v.pass_len(),
        v.passes(),
        0,
    );
}

/// The pixel at offset `o` of band `b` lies in the image, in band `b`, at
/// offset `o`.
proof fn lemma_pixel_of(a: AccumulatorView, side: int, b: int, o: int)
    requires
        1 <= side,
        a.passes == side * side,
        1 <= a.hres,
        0 <= a.vres,
        1 <= a.workers,
        0 <= b < a.workers,
        0 <= o < schedule_of(a, side, b).rows() * a.hres,
    ensures
        ({
            let v = schedule_of(a, side, b);
            let idx = pixel_of(v, o);
            &&& 0 <= idx < a.hres * a.vres
            &&& idx / a.hres == image_row(a.vres, v.low + o / a.hres)
            &&& idx % a.hres == o % a.hres
            &&& band_of_pixel(a, idx) == b
            &&& offset_of_pixel(a, side, idx) == o
        }),
{
    let v = schedule_of(a, side, b);
    let h = a.hres;
    lemma_band_within_image(a.vres, a.workers, b);
    let q = o / h;
    let c = o % h;
    vstd::arithmetic::div_mod::lemma_fundamental_div_mod(o, h);
    vstd::arithmetic::div_mod::lemma_mod_bound(o, h);
    vstd::arithmetic::div_mod::lemma_div_pos_is_pos(o, h);
    if q >= v.rows() {
        assert(o >= v.rows() * h) by (nonlinear_arith)
            requires
                o == h * q + c,
                c >= 0,
                q >= v.rows(),
                h >= 1,
        ;
    }
    let y = v.low + q;
    let r = image_row(a.vres, y);
    assert(0 <= r < a.vres);
    let idx = r * h + c;
    assert(0 <= idx < h * a.vres) by (nonlinear_arith)
        requires
            idx == r * h + c,
            0 <= r < a.vres,
            0 <= c < h,
    ;
    vstd::arithmetic::div_mod::lemma_fundamental_div_mod_converse(idx, h, r, c);
    lemma_every_row_in_one_band(a.vres, a.workers, y);
    assert(band_contains(a.vres, a.workers, b, y));
    assert(world_row(a.vres, r) == y);
    assert((y - v.low) * h + c == o) by (nonlinear_arith)
        requires
            o == h * q + c,
            y - v.low == q,
    ;
}

/// Every pixel of the image is the pixel at its own offset of its own band.
proof fn lemma_pixel_decompose(a: AccumulatorView, side: int, idx: int)
    requires
        1 <= side,
        a.passes == side * side,
        0 <= a.hres,
        0 <= a.vres,
        1 <= a.workers,
        0 <= idx < a.hres * a.vres,
    ensures
        ({
            let b = band_of_pixel(a, idx);
            let v = schedule_of(a, side, b);
            let o = offset_of_pixel(a, side, idx);
            &&& a.hres >= 1
            &&& 0 <= b < a.workers
            &&& 0 <= o < v.rows() * a.hres
            &&& pixel_of(v, o) == idx
        }),
{
    let h = a.hres;
    if h == 0 {
        assert(h * a.vres == 0) by (nonlinear_arith)
            requires
                h == 0,
        ;
    }
    let r = idx / h;
    let c = idx % h;
    vstd::arithmetic::div_mod::lemma_fundamental_div_mod(idx, h);
    vstd::arithmetic::div_mod::lemma_mod_bound(idx, h);
    vstd::arithmetic::div_mod::lemma_div_pos_is_pos(idx, h);
    if r >= a.vres {
        assert(idx >= h * a.vres) by (nonlinear_arith)
            requires
                idx == h * r + c,
                c >= 0,
                r >= a.vres,
                h >= 1,
        ;
    }
    let y = world_row(a.vres, r);
    lemma_every_row_in_one_band(a.vres, a.workers, y);
    let b = band_of_pixel(a, idx);
    let v = schedule_of(a, side, b);
    let o = (y - v.low) * h + c;
    assert(0 <= o < v.rows() * h) by (nonlinear_arith)
        requires
            o == (y - v.low) * h + c,
            0 <= y - v.low < v.rows(),
            0 <= c < h,
    ;
    vstd::arithmetic::div_mod::lemma_fundamental_div_mod_converse(o, h, y - v.low, c);
    assert(image_row(a.vres, v.low + o / h) == r);
    assert(r * h + c == idx) by (nonlinear_arith)
        requires
            idx == h * r + c,
    ;
}

/// Once every worker has sent its last message, every pixel of the image
/// holds all its samples and every band has completed all its passes.
pub proof fn lemma_all_received(a: AccumulatorView, side: int, ks: Seq<int>)
    requires
        received(a, side, ks),
        forall|j: int| 0 <= j < a.workers ==> #[trigger] ks[j] > schedule_of(a, side, j).end_index(),
    ensures
        forall|idx: int| 0 <= idx < a.hres * a.vres ==> #[trigger] a.counts[idx] == a.passes,
        forall|j: int| 0 <= j < a.workers ==> #[trigger] a.completed[j] == a.passes,
        forall|j: int| 0 <= j < a.workers ==> #[trigger] a.ended[j],
{
    assert forall|idx: int| 0 <= idx < a.hres * a.vres implies #[trigger] a.counts[idx] == a.passes by {
        lemma_pixel_decompose(a, side, idx);
        lemma_schedule_shape(a, side, band_of_pixel(a, idx));
    }
    assert forall|j: int| 0 <= j < a.workers implies #[trigger] a.completed[j] == a.passes by {
        lemma_schedule_shape(a, side, j);
        assert(ks[j] > schedule_of(a, side, j).end_index());
    }
    assert forall|j: int| 0 <= j < a.workers implies #[trigger] a.ended[j] by {
        assert(ks[j] > schedule_of(a, side, j).end_index());
    }
}

/// Where step `k` of a band falls: its pass `k / pass_len` and its offset
/// `k % pass_len` within the pass.
proof fn lemma_step_position(v: ScheduleView, k: int)
    requires
        v.pass_len() >= 1,
        v.end_index() == v.passes() * v.pass_len(),
        0 <= k < v.end_index(),
    ensures
        0 <= k / v.pass_len() < v.passes(),
        0 <= k % v.pass_len() < v.pass_len(),
        k == v.pass_len() * (k / v.pass_len()) + k % v.pass_len(),
{
    let len = v.pass_len();
    vstd::arithmetic::div_mod::lemma_fundamental_div_mod(k, len);
    vstd::arithmetic::div_mod::lemma_mod_bound(k, len);
    vstd::arithmetic::div_mod::lemma_div_pos_is_pos(k, len);
    if k / len >= v.passes() {
        assert(k >= v.passes() * len) by (nonlinear_arith)
            requires
                k == len * (k / len) + k % len,
                k % len >= 0,
                k / len >= v.passes(),
                len >= 1,
        ;
    }
}

/// Whatever order the messages of different workers arrive in, the next
/// message of any worker that has not yet ended is accepted, and the
/// accumulator then holds what that worker's messages so far tell. It
/// answers `Finish` exactly when this message ends the last band still
/// running.
pub proof fn lemma_next_message_accepted<C>(
    a: AccumulatorView,
    side: int,
    ks: Seq<int>,
    b: int,
    color: C,
)
    requires
        received(a, side, ks),
        0 <= b < a.workers,
        ks[b] <= schedule_of(a, side, b).end_index(),
    ensures
        ({
            let m = message_of(schedule_of(a, side, b).step_at(ks[b]), color);
            let ks2 = ks.update(b, ks[b] + 1);
            &&& a.outcome(m) is Ok
            &&& received(a.after(m), side, ks2)
            &&& (a.outcome(m) == Ok::<Action, ProtocolError>(Action::Finish) <==> forall|j: int|
                0 <= j < a.workers ==> #[trigger] ks2[j] > schedule_of(a, side, j).end_index())
        }),
{
    let v = schedule_of(a, side, b);
    let k = ks[b];
    let len = v.pass_len();
    let m = message_of(v.step_at(k), color);
    let ks2 = ks.update(b, k + 1);
    lemma_schedule_shape(a, side, b);
    if k == v.end_index() {
        lemma_end_accepted(a, side, ks, b, color);
    } else {
        lemma_step_position(v, k);
        let p = k / len;
        let i = k % len;
        if i < v.rows() * v.hres {
            lemma_trace_accepted(a, side, ks, b, color);
        } else {
            lemma_sample_complete_accepted(a, side, ks, b, color);
        }
        assert(!(ks2[b] > v.end_index()));
    }
}

proof fn lemma_trace_accepted<C>(a: AccumulatorView, side: int, ks: Seq<int>, b: int, color: C)
    requires
        received(a, side, ks),
        0 <= b < a.workers,
        0 <= ks[b] < schedule_of(a, side, b).end_index(),
        ks[b] % schedule_of(a, side, b).pass_len() < schedule_of(a, side, b).rows() * a.hres,
    ensures
        ({
            let m = message_of(schedule_of(a, side, b).step_at(ks[b]), color);
            &&& a.outcome(m) matches Ok(Action::Accumulate(_))
            &&& received(a.after(m), side, ks.update(b, ks[b] + 1))
        }),
{
    let v = schedule_of(a, side, b);
    let k = ks[b];
    let len = v.pass_len();
    let h = a.hres;
    lemma_schedule_shape(a, side, b);
    lemma_step_position(v, k);
    let p = k / len;
    let i = k % len;
    assert(h >= 1) by {
        if h == 0 {
            assert(v.rows() * h == 0) by (nonlinear_arith)
                requires
                    h == 0,
            ;
        }
    }
    lemma_pixel_of(a, side, b, i);
    let idx0 = pixel_of(v, i);
    let job = v.job(p, i);
    assert(v.step_at(k) == WorkStep::Trace(job));
    let m = message_of(v.step_at(k), color);
    assert(a.pixel_index(job.img_x as int, job.img_y as int) == idx0);
    assert(a.counts[idx0] == p);
    let a2 = a.after(m);
    let ks2 = ks.update(b, k + 1);
    assert(a2.counts == a.counts.update(idx0, (p + 1) as u32));
    vstd::arithmetic::div_mod::lemma_fundamental_div_mod_converse(k + 1, len, p, i + 1);
    assert(len * p + len <= v.passes() * len) by (nonlinear_arith)
        requires
            p + 1 <= v.passes(),
            len >= 1,
    ;
    assert forall|j: int| 0 <= j < a2.workers implies {
        let w = schedule_of(a2, side, j);
        &&& 0 <= #[trigger] ks2[j] <= w.end_index() + 1
        &&& a2.completed[j] == passes_done(w, ks2[j])
        &&& a2.ended[j] == (ks2[j] > w.end_index())
    } by {}
    assert forall|idx: int| 0 <= idx < a2.hres * a2.vres implies #[trigger] a2.counts[idx]
        == samples_done(
        schedule_of(a2, side, band_of_pixel(a2, idx)),
        ks2[band_of_pixel(a2, idx)],
        offset_of_pixel(a2, side, idx),
    ) by {
        lemma_pixel_decompose(a, side, idx);
        if idx != idx0 && band_of_pixel(a, idx) == b {
            assert(offset_of_pixel(a, side, idx) != i);
        }
    }
}

proof fn lemma_sample_complete_accepted<C>(
    a: AccumulatorView,
    side: int,
    ks: Seq<int>,
    b: int,
    color: C,
)
    requires
        received(a, side, ks),
        0 <= b < a.workers,
        0 <= ks[b] < schedule_of(a, side, b).end_index(),
        ks[b] % schedule_of(a, side, b).pass_len() >= schedule_of(a, side, b).rows() * a.hres,
    ensures
        ({
            let m = message_of(schedule_of(a, side, b).step_at(ks[b]), color);
            &&& a.outcome(m) is Ok
            &&& a.outcome(m) != Ok::<Action, ProtocolError>(Action::Finish)
            &&& received(a.after(m), side, ks.update(b, ks[b] + 1))
        }),
{
    let v = schedule_of(a, side, b);
    let k = ks[b];
    let len = v.pass_len();
    lemma_schedule_shape(a, side, b);
    lemma_step_position(v, k);
    let p = k / len;
    let i = k % len;
    assert(i == len - 1);
    let m = message_of(v.step_at(k), color);
    assert(m == PixelInfo::<C>::SampleComplete((p + 1) as u32, b as u32));
    assert(a.completed[b] == p);
    let a2 = a.after(m);
    let ks2 = ks.update(b, k + 1);
    assert(a2.completed == a.completed.update(b, (p + 1) as u32));
    assert(k + 1 == (p + 1) * len) by (nonlinear_arith)
        requires
            k == len * p + i,
            i == len - 1,
    ;
    if p + 1 < v.passes() {
        vstd::arithmetic::div_mod::lemma_fundamental_div_mod_converse(k + 1, len, p + 1, 0);
        assert(k + 1 < v.end_index()) by (nonlinear_arith)
            requires
                k + 1 == (p + 1) * len,
                p + 1 < v.passes(),
                len >= 1,
                v.end_index() == v.passes() * len,
        ;
    }
    assert forall|j: int| 0 <= j < a2.workers implies {
        let w = schedule_of(a2, side, j);
        &&& 0 <= #[trigger] ks2[j] <= w.end_index() + 1
        &&& a2.completed[j] == passes_done(w, ks2[j])
        &&& a2.ended[j] == (ks2[j] > w.end_index())
    } by {}
    assert forall|idx: int| 0 <= idx < a2.hres * a2.vres implies #[trigger] a2.counts[idx]
        == samples_done(
        schedule_of(a2, side, band_of_pixel(a2, idx)),
        ks2[band_of_pixel(a2, idx)],
        offset_of_pixel(a2, side, idx),
    ) by {
        lemma_pixel_decompose(a, side, idx);
    }
}

proof fn lemma_end_accepted<C>(a: AccumulatorView, side: int, ks: Seq<int>, b: int, color: C)
    requires
        received(a, side, ks),
        0 <= b < a.workers,
        ks[b] == schedule_of(a, side, b).end_index(),
    ensures
        ({
            let m = message_of(schedule_of(a, side, b).step_at(ks[b]), color);
            let ks2 = ks.update(b, ks[b] + 1);
            &&& a.outcome(m) is Ok
            &&& received(a.after(m), side, ks2)
            &&& (a.outcome(m) == Ok::<Action, ProtocolError>(Action::Finish) <==> forall|j: int|
                0 <= j < a.workers ==> #[trigger] ks2[j] > schedule_of(a, side, j).end_index())
        }),
{
    let v = schedule_of(a, side, b);
    let k = ks[b];
    lemma_schedule_shape(a, side, b);
    let m = message_of(v.step_at(k), color);
    assert(m == PixelInfo::<C>::End(b as u32));
    let a2 = a.after(m);
    let ks2 = ks.update(b, k + 1);
    assert(a2.ended == a.ended.update(b, true));
    assert forall|j: int| 0 <= j < a2.workers implies {
        let w = schedule_of(a2, side, j);
        &&& 0 <= #[trigger] ks2[j] <= w.end_index() + 1
        &&& a2.completed[j] == passes_done(w, ks2[j])
        &&& a2.ended[j] == (ks2[j] > w.end_index())
    } by {}
    assert forall|idx: int| 0 <= idx < a2.hres * a2.vres implies #[trigger] a2.counts[idx]
        == samples_done(
        schedule_of(a2, side, band_of_pixel(a2, idx)),
        ks2[band_of_pixel(a2, idx)],
        offset_of_pixel(a2, side, idx),
    ) by {
        lemma_pixel_decompose(a, side, idx);
    }
    if a.others_ended(b) {
        assert forall|j: int| 0 <= j < a.workers implies #[trigger] ks2[j] > schedule_of(
            a,
            side,
            j,
        ).end_index() by {
            if j != b {
                assert(a.ended[j]);
            }
        }
    } else {
        let j = choose|j: int| 0 <= j < a.workers && j != b && !#[trigger] a.ended[j];
        assert(!(ks2[j] > schedule_of(a, side, j).end_index()));
    }
}

} // verus!
