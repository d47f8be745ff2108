use vstd::prelude::*;
use crate::grid::ViewGrid;
use crate::schedule::{band_schedule, WorkerSchedule};

verus! {

/// Relies on num_cpus::get: the number of CPUs this process may use, which
/// its documentation promises is at least 1.
#[verifier::external_body]
fn available_cpus() -> (r: usize)
    ensures
        r >= 1,
{
    num_cpus::get()
}

/// A progressive renderer that splits the image into one horizontal band per
/// worker.
pub struct SimpleTracer;

impl SimpleTracer {
    pub fn new() -> Self {
        SimpleTracer {}
    }

    /// One worker per CPU available to this process (at least one).
    pub fn worker_count(&self) -> (r: u32)
        ensures
            r >= 1,
    {
        workers_for(available_cpus())
    }

    /// The schedules of the `workers` bands of `grid`, band 0 (the lowest)
    /// first, each before its first step.
    pub fn schedules(&self, grid: &ViewGrid, workers: u32) -> (r: Vec<WorkerSchedule>)
        requires
            grid.wf(),
            workers >= 1,
        ensures
            r.len() == workers,
            forall|b: int|
                0 <= b < workers ==> #[trigger] r@[b].wf() && r@[b]@ == band_schedule(
                    grid.hres() as int,
                    grid.vres() as int,
                    grid.side() as int,
                    workers as int,
                    b,
                ),
    {
        let mut r: Vec<WorkerSchedule> = Vec::new();
        let mut b: u32 = 0;
        while b < workers
            invariant
                grid.wf(),
                b <= workers,
                r.len() == b,
                forall|j: int|
                    0 <= j < b ==> #[trigger] r@[j].wf() && r@[j]@ == band_schedule(
                        grid.hres() as int,
                        grid.vres() as int,
                        grid.side() as int,
                        workers as int,
                        j,
                    ),
            decreases workers - b,
        {
            r.push(WorkerSchedule::new(grid, workers, b));
            b = b + 1;
        }
        r
    }
}

/// Number of workers for `cpus` available CPUs: one per CPU, as many as a
/// `u32` counts.
pub fn workers_for(cpus: usize) -> (r: u32)
    requires
        cpus >= 1,
    ensures
        r == if cpus > u32::MAX {
            u32::MAX
        } else {
            cpus as u32
        },
        r >= 1,
{
    if cpus > u32::MAX as usize {
        u32::MAX
    } else {
        cpus as u32
    }
}

/// `keys[i]` is a hit nearer than every hit before it and no farther than
/// every hit after it.
pub open spec fn is_nearest(keys: Seq<Option<u64>>, i: int) -> bool {
    &&& 0 <= i < keys.len()
    &&& keys[i] is Some
    &&& forall|j: int|
        0 <= j < i && #[trigger] keys[j] is Some ==> keys[i]->0 < keys[j]->0
    &&& forall|j: int|
        i < j < keys.len() && #[trigger] keys[j] is Some ==> keys[i]->0 <= keys[j]->0
}

/// Index of the nearest hit among the objects of a scene, in scene order:
/// `keys[i]` is the distance along the ray at which object `i` is hit, or
/// `None` if the ray misses it. Distances are compared as keys that order
/// as the distances do. Of equally near hits the first one wins.
pub fn nearest_hit(keys: &Vec<Option<u64>>) -> (r: Option<usize>)
    ensures
        r is None <==> forall|j: int| 0 <= j < keys.len() ==> #[trigger] keys@[j] is None,
        r matches Some(i) ==> is_nearest(keys@, i as int),
{
    let mut best: Option<usize> = None;
    let mut i: usize = 0;
    while i < keys.len()
        invariant
            i <= keys.len(),
            best is None <==> forall|j: int| 0 <= j < i ==> #[trigger] keys@[j] is None,
            best matches Some(b) ==> is_nearest(keys@.subrange(0, i as int), b as int),
        decreases keys.len() - i,
    {
        if let Some(k) = keys[i] {
            let closer = match best {
                None => true,
                Some(b) => match keys[b] {
                    Some(kb) => k < kb,
                    None => true,
                },
            };
            if closer {
                best = Some(i);
            }
        }
        i = i + 1;
        proof {
            let s = keys@.subrange(0, i as int);
            let t = keys@.subrange(0, i - 1);
            if let Some(b) = best {
                assert forall|j: int| 0 <= j < b && #[trigger] s[j] is Some implies s[b as int]->0 < s[j]->0 by {
                    assert(s[j] == keys@[j]);
                    if (b as int) < i - 1 {
                        assert(t[j] == keys@[j]);
                    }
                }
                assert forall|j: int| b < j < s.len() && #[trigger] s[j] is Some implies s[b as int]->0 <= s[j]->0 by {
                    assert(s[j] == keys@[j]);
                    if j < i - 1 {
                        assert(t[j] == keys@[j]);
                    }
                }
            }
        }
    }
    assert(keys@.subrange(0, i as int) =~= keys@);
    best
}

} // verus!
