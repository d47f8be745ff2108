use vstd::prelude::*;
use crate::grid::ViewGrid;

verus! {

/// A message from a worker to the accumulator.
#[derive(Debug)]
pub enum PixelInfo<C> {
    /// Image column, image row, colour of one sample, and the number of the
    /// pass it belongs to (counting from 1).
    Pixel(u32, u32, C, u32),
    /// The pass `.0` over band `.1` is complete.
    SampleComplete(u32, u32),
    /// Band `.0` is finished.
    End(u32),
}

/// What the accumulator's owner does with a message that was accepted.
#[derive(Debug, Clone, Copy, PartialEq, Eq, Structural)]
pub enum Action {
    /// Add the sample's colour into the running sum at this pixel index
    /// (`row * hres + column`).
    Accumulate(usize),
    /// Nothing more to do for this message.
    Continue,
    /// Overall progress has crossed into a new tenth: save a snapshot. The
    /// value is the progress in whole percent.
    Snapshot(u32),
    /// Every worker is finished: stop receiving.
    Finish,
}

/// A message that breaks the protocol between workers and accumulator.
#[derive(Debug, Clone, Copy, PartialEq, Eq, Structural)]
pub enum ProtocolError {
    /// The pixel lies outside the image.
    PixelOutOfRange,
    /// No worker has that band.
    UnknownBand,
    /// The message does not follow what the same worker sent before.
    OutOfOrder,
}

/// Sum of a sequence of counters.
pub open spec fn total(s: Seq<u32>) -> int
    decreases s.len(),
{
    if s.len() == 0 {
        0
    } else {
        total(s.drop_last()) + s.last()
    }
}

/// The accumulator's bookkeeping: for each pixel the number of samples
/// summed into it, for each band the number of complete passes and whether
/// it has ended.
pub ghost struct AccumulatorView {
    pub hres: int,
    pub vres: int,
    pub workers: int,
    pub passes: int,
    pub counts: Seq<u32>,
    pub completed: Seq<u32>,
    pub ended: Seq<bool>,
}

impl AccumulatorView {
    /// The shape every accumulator keeps: one counter per pixel and one
    /// entry per band, no counter beyond the passes per band, and only a
    /// band whose passes are all complete marked as ended.
    pub open spec fn inv(self) -> bool {
        &&& 1 <= self.workers <= u32::MAX
        &&& 1 <= self.passes <= u32::MAX
        &&& 0 <= self.hres <= u32::MAX
        &&& 0 <= self.vres <= u32::MAX
        &&& self.counts.len() == self.hres * self.vres
        &&& self.completed.len() == self.workers
        &&& self.ended.len() == self.workers
        &&& forall|i: int| 0 <= i < self.counts.len() ==> #[trigger] self.counts[i] <= self.passes
        &&& forall|b: int| 0 <= b < self.workers ==> #[trigger] self.completed[b] <= self.passes
        &&& forall|b: int| 0 <= b < self.workers && #[trigger] self.ended[b] ==> self.completed[b]
            == self.passes
    }

    /// Passes that all workers together have to complete.
    pub open spec fn work(self) -> int {
        self.workers * self.passes
    }

    /// Passes completed so far by all workers together.
    pub open spec fn done(self) -> int {
        total(self.completed)
    }

    /// Which tenth of the work has been reached after `d` complete passes.
    pub open spec fn tenth(self, d: int) -> int {
        d * 10 / self.work()
    }

    /// Progress in whole percent after `d` complete passes.
    pub open spec fn percent(self, d: int) -> int {
        d * 100 / self.work()
    }

    pub open spec fn pixel_index(self, x: int, y: int) -> int {
        y * self.hres + x
    }

    /// Whether every band other than `b` has ended.
    pub open spec fn others_ended(self, b: int) -> bool {
        forall|j: int| 0 <= j < self.workers && j != b ==> #[trigger] self.ended[j]
    }

    /// The answer to message `m`.
    pub open spec fn outcome<C>(self, m: PixelInfo<C>) -> Result<Action, ProtocolError> {
        match m {
            PixelInfo::Pixel(x, y, _, s) => {
                if x >= self.hres || y >= self.vres {
                    Err(ProtocolError::PixelOutOfRange)
                } else if s > self.passes || s != self.counts[self.pixel_index(x as int, y as int)]
                    + 1 {
                    Err(ProtocolError::OutOfOrder)
                } else {
                    Ok(Action::Accumulate(self.pixel_index(x as int, y as int) as usize))
                }
            },
            PixelInfo::SampleComplete(s, b) => {
                if b >= self.workers {
                    Err(ProtocolError::UnknownBand)
                } else if s > self.passes || s != self.completed[b as int] + 1 {
                    Err(ProtocolError::OutOfOrder)
                } else if self.tenth(self.done() + 1) > self.tenth(self.done()) {
                    Ok(Action::Snapshot(self.percent(self.done() + 1) as u32))
                } else {
                    Ok(Action::Continue)
                }
            },
            PixelInfo::End(b) => {
                if b >= self.workers {
                    Err(ProtocolError::UnknownBand)
                } else if self.ended[b as int] || self.completed[b as int] != self.passes {
                    Err(ProtocolError::OutOfOrder)
                } else if self.others_ended(b as int) {
                    Ok(Action::Finish)
                } else {
                    Ok(Action::Continue)
                }
            },
        }
    }

    /// The bookkeeping after message `m`; a refused message changes nothing.
    pub open spec fn after<C>(self, m: PixelInfo<C>) -> AccumulatorView {
        if self.outcome(m) is Err {
            self
        } else {
            match m {
                PixelInfo::Pixel(x, y, _, s) => AccumulatorView {
                    counts: self.counts.update(self.pixel_index(x as int, y as int), s),
                    ..self
                },
                PixelInfo::SampleComplete(s, b) => AccumulatorView {
                    completed: self.completed.update(b as int, s),
                    ..self
                },
                PixelInfo::End(b) => AccumulatorView { ended: self.ended.update(b as int, true), ..self },
            }
        }
    }
}

/// Merges what the workers report: checks each message against what its
/// worker sent before, tells where each sample goes, counts the samples
/// behind every pixel, and decides when to save a snapshot and when the
/// render is over.
pub struct Accumulator {
    hres: u32,
    vres: u32,
    workers: u32,
    passes: u32,
    counts: Vec<u32>,
    completed: Vec<u32>,
    ended: Vec<bool>,
    done: u64,
}

impl View for Accumulator {
    type V = AccumulatorView;

    closed spec fn view(&self) -> AccumulatorView {
        AccumulatorView {
            hres: self.hres as int,
            vres: self.vres as int,
            workers: self.workers as int,
            passes: self.passes as int,
            counts: self.counts@,
            completed: self.completed@,
            ended: self.ended@,
        }
    }
}

impl Accumulator {
    pub closed spec fn wf(&self) -> bool {
        &&& self.workers >= 1
        &&& self.passes >= 1
        &&& self.counts.len() == self.hres * self.vres
        &&& forall|i: int| 0 <= i < self.counts.len() ==> #[trigger] self.counts@[i] <= self.passes
        &&& self.completed.len() == self.workers
        &&& self.ended.len() == self.workers
        &&& forall|b: int| 0 <= b < self.workers ==> #[trigger] self.completed@[b] <= self.passes
        &&& forall|b: int| 0 <= b < self.workers && #[trigger] self.ended@[b] ==> self.completed@[b]
            == self.passes
        &&& self.done == total(self.completed@)
    }

    /// The accumulator for `workers` workers rendering `grid`, before any
    /// message: no samples, no complete passes, no band ended.
    pub fn new(grid: &ViewGrid, workers: u32) -> (r: Accumulator)
        requires
            grid.wf(),
            workers >= 1,
            grid.hres() * grid.vres() <= usize::MAX,
        ensures
            r.wf(),
            r@.inv(),
            r@.hres == grid.hres(),
            r@.vres == grid.vres(),
            r@.workers == workers,
            r@.passes == grid.samples(),
            r@.counts == Seq::new((grid.hres() * grid.vres()) as nat, |i: int| 0u32),
            r@.completed == Seq::new(workers as nat, |i: int| 0u32),
            r@.ended == Seq::new(workers as nat, |i: int| false),
    {
        let n: usize = grid.hres() as usize * grid.vres() as usize;
        let counts = zeros(n);
        let completed = zeros(workers as usize);
        let mut ended: Vec<bool> = Vec::new();
        let mut i: usize = 0;
        while i < workers as usize
            invariant
                i <= workers,
                ended@ == Seq::new(i as nat, |j: int| false),
            decreases workers - i,
        {
            ended.push(false);
            i = i + 1;
            assert(ended@ =~= Seq::new(i as nat, |j: int| false));
        }
        proof {
            lemma_total_zero(completed@);
        }
        Accumulator {
            hres: grid.hres(),
            vres: grid.vres(),
            workers,
            passes: grid.samples(),
            counts,
            completed,
            ended,
            done: 0,
        }
    }

    /// Takes one message from a worker: says what to do with it, or why it
    /// breaks the protocol, and updates the bookkeeping.
    pub fn on_message<C>(&mut self, m: &PixelInfo<C>) -> (r: Result<Action, ProtocolError>)
        requires
            old(self).wf(),
        ensures
            final(self).wf(),
            final(self)@.inv(),
            r == old(self)@.outcome(*m),
            final(self)@ == old(self)@.after(*m),
    {
        match m {
            PixelInfo::Pixel(x, y, _, s) => {
                let (x, y, s) = (*x, *y, *s);
                if x >= self.hres || y >= self.vres {
                    return Err(ProtocolError::PixelOutOfRange);
                }
                assert(y * self.hres + x < self.hres * self.vres) by (nonlinear_arith)
                    requires
                        x < self.hres,
                        y < self.vres,
                ;
                let index: usize = y as usize * self.hres as usize + x as usize;
                let c = self.counts[index];
                if s > self.passes || s as u64 != c as u64 + 1 {
                    return Err(ProtocolError::OutOfOrder);
                }
                self.counts.set(index, s);
                Ok(Action::Accumulate(index))
            },
            PixelInfo::SampleComplete(s, b) => {
                let (s, b) = (*s, *b);
                if b >= self.workers {
                    return Err(ProtocolError::UnknownBand);
                }
                let c = self.completed[b as usize];
                if s > self.passes || s as u64 != c as u64 + 1 {
                    return Err(ProtocolError::OutOfOrder);
                }
                let ghost before = self.completed@;
                self.completed.set(b as usize, s);
                proof {
                    lemma_total_update(before, b as int, s);
                    lemma_total_bound(self.completed@, self.passes as int);
                    assert(self.workers * self.passes <= u32::MAX * u32::MAX) by (nonlinear_arith)
                        requires
                            self.workers <= u32::MAX,
                            self.passes <= u32::MAX,
                    ;
                }
                let work: u128 = self.workers as u128 * self.passes as u128;
                let old_tenth: u128 = self.done as u128 * 10 / work;
                self.done = self.done + 1;
                let new_tenth: u128 = self.done as u128 * 10 / work;
                if new_tenth > old_tenth {
                    let percent: u128 = self.done as u128 * 100 / work;
                    proof {
                        lemma_percent_bound(self.done as int, work as int);
                    }
                    Ok(Action::Snapshot(percent as u32))
                } else {
                    Ok(Action::Continue)
                }
            },
            PixelInfo::End(b) => {
                let b = *b;
                if b >= self.workers {
                    return Err(ProtocolError::UnknownBand);
                }
                if self.ended[b as usize] || self.completed[b as usize] != self.passes {
                    return Err(ProtocolError::OutOfOrder);
                }
                self.ended.set(b as usize, true);
                let mut all = true;
                let mut j: usize = 0;
                while j < self.workers as usize
                    invariant
                        self.ended.len() == self.workers,
                        j <= self.workers,
                        all <==> forall|k: int| 0 <= k < j ==> #[trigger] self.ended@[k],
                    decreases self.workers - j,
                {
                    if !self.ended[j] {
                        all = false;
                    }
                    j = j + 1;
                }
                assert(all <==> old(self)@.others_ended(b as int)) by {
                    if all {
                        assert forall|k: int|
                            0 <= k < self.workers && k != b implies #[trigger] old(self).ended@[k] by {
                            assert(self.ended@[k]);
                        }
                    } else {
                        let k = choose|k: int| 0 <= k < self.workers && !#[trigger] self.ended@[k];
                        assert(k != b);
                        assert(!old(self).ended@[k]);
                    }
                }
                if all {
                    Ok(Action::Finish)
                } else {
                    Ok(Action::Continue)
                }
            },
        }
    }

    /// Number of samples summed so far into the pixel at `index`: the value
    /// to divide its running sum by for display.
    pub fn samples_at(&self, index: usize) -> (r: u32)
        requires
            self.wf(),
            index < self@.counts.len(),
        ensures
            r == self@.counts[index as int],
    {
        self.counts[index]
    }
}

/// A vector of `n` zeros.
fn zeros(n: usize) -> (r: Vec<u32>)
    ensures
        r@ == Seq::new(n as nat, |i: int| 0u32),
{
    let mut v: Vec<u32> = Vec::new();
    let mut i: usize = 0;
    while i < n
        invariant
            i <= n,
            v@ == Seq::new(i as nat, |j: int| 0u32),
        decreases n - i,
    {
        v.push(0);
        i = i + 1;
        assert(v@ =~= Seq::new(i as nat, |j: int| 0u32));
    }
    v
}

proof fn lemma_total_update(s: Seq<u32>, i: int, v: u32)
    requires
        0 <= i < s.len(),
    ensures
        total(s.update(i, v)) == total(s) - s[i] + v,
    decreases s.len(),
{
    let t = s.update(i, v);
    if i == s.len() - 1 {
        assert(t.drop_last() =~= s.drop_last());
    } else {
        lemma_total_update(s.drop_last(), i, v);
        assert(t.drop_last() =~= s.drop_last().update(i, v));
    }
}

proof fn lemma_total_bound(s: Seq<u32>, m: int)
    requires
        forall|i: int| 0 <= i < s.len() ==> s[i] <= m,
    ensures
        total(s) <= s.len() * m,
    decreases s.len(),
{
    if s.len() > 0 {
        lemma_total_bound(s.drop_last(), m);
        assert(s.drop_last().len() * m + m == s.len() * m) by (nonlinear_arith)
            requires
                s.drop_last().len() == s.len() - 1,
        ;
    }
}

/// Progress in percent never passes 100.
proof fn lemma_percent_bound(d: int, work: int)
    requires
        0 <= d <= work,
        work >= 1,
    ensures
        0 <= d * 100 / work <= 100,
{
    vstd::arithmetic::div_mod::lemma_fundamental_div_mod(d * 100, work);
    vstd::arithmetic::div_mod::lemma_div_pos_is_pos(d * 100, work);
    let q = d * 100 / work;
    if q > 100 {
        assert(work * q >= work * 101) by (nonlinear_arith)
            requires
                q >= 101,
                work >= 1,
        ;
        assert(d * 100 <= work * 100) by (nonlinear_arith)
            requires
                d <= work,
        ;
    }
}

proof fn lemma_total_zero(s: Seq<u32>)
    requires
        forall|i: int| 0 <= i < s.len() ==> s[i] == 0,
    ensures
        total(s) == 0,
    decreases s.len(),
{
    if s.len() > 0 {
        lemma_total_zero(s.drop_last());
    }
}

} // verus!
