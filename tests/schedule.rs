use raytracer::{workers_for, PixelJob, SimpleTracer, ViewGrid, WorkStep, WorkerSchedule};
use std::collections::BTreeMap;

fn run(s: &mut WorkerSchedule) -> Vec<WorkStep> {
    let mut steps = Vec::new();
    loop {
        let step = s.next();
        steps.push(step);
        if step == WorkStep::Done {
            return steps;
        }
    }
}

#[test]
fn one_worker_visits_rows_upwards_then_reports() {
    let g = ViewGrid::new(2, 2, 1).unwrap();
    let mut s = WorkerSchedule::new(&g, 1, 0);
    let job = |x: i64, y: i64, img_x: u32, img_y: u32| {
        WorkStep::Trace(PixelJob { x, y, img_x, img_y, sub_x: 0, sub_y: 0, sample_no: 1 })
    };
    assert_eq!(
        run(&mut s),
        vec![
            job(-1, -1, 0, 1),
            job(0, -1, 1, 1),
            job(-1, 0, 0, 0),
            job(0, 0, 1, 0),
            WorkStep::SampleComplete(1, 0),
            WorkStep::End(0),
            WorkStep::Done,
        ]
    );
    assert_eq!(s.next(), WorkStep::Done);
}

#[test]
fn passes_walk_the_sampling_grid() {
    let g = ViewGrid::new(1, 1, 4).unwrap();
    let mut s = WorkerSchedule::new(&g, 1, 0);
    let cells: Vec<(u32, u32, u32)> = run(&mut s)
        .into_iter()
        .filter_map(|st| match st {
            WorkStep::Trace(j) => Some((j.sub_x, j.sub_y, j.sample_no)),
            _ => None,
        })
        .collect();
    assert_eq!(cells, vec![(0, 0, 1), (1, 0, 2), (0, 1, 3), (1, 1, 4)]);
}

#[test]
fn empty_band_only_reports() {
    let g = ViewGrid::new(3, 2, 4).unwrap();
    let mut s = WorkerSchedule::new(&g, 4, 0);
    assert_eq!(
        run(&mut s),
        vec![
            WorkStep::SampleComplete(1, 0),
            WorkStep::SampleComplete(2, 0),
            WorkStep::SampleComplete(3, 0),
            WorkStep::SampleComplete(4, 0),
            WorkStep::End(0),
            WorkStep::Done,
        ]
    );
}

/// Every (pixel, cell) sample traced by all workers together, with how often.
fn samples_taken(g: &ViewGrid, workers: u32) -> BTreeMap<(u32, u32, u32, u32, u32), u32> {
    let mut seen = BTreeMap::new();
    for mut s in SimpleTracer::new().schedules(g, workers) {
        for st in run(&mut s) {
            if let WorkStep::Trace(j) = st {
                *seen.entry((j.img_x, j.img_y, j.sub_x, j.sub_y, j.sample_no)).or_insert(0) += 1;
            }
        }
    }
    seen
}

#[test]
fn worker_count_does_not_change_the_samples_taken() {
    let g = ViewGrid::new(5, 7, 4).unwrap();
    let one = samples_taken(&g, 1);
    assert_eq!(one.len(), 5 * 7 * 4);
    assert!(one.values().all(|&n| n == 1));
    for workers in 2..10 {
        assert_eq!(samples_taken(&g, workers), one);
    }
}

#[test]
fn world_and_image_coordinates_agree() {
    let g = ViewGrid::new(4, 3, 1).unwrap();
    for mut s in SimpleTracer::new().schedules(&g, 2) {
        for st in run(&mut s) {
            if let WorkStep::Trace(j) = st {
                assert_eq!(j.x + 2, j.img_x as i64);
                assert_eq!(1 - j.y, j.img_y as i64);
            }
        }
    }
}

#[test]
fn schedules_cover_every_band_once() {
    let g = ViewGrid::new(8, 8, 1).unwrap();
    let schedules = SimpleTracer::new().schedules(&g, 3);
    assert_eq!(schedules.len(), 3);
    for (b, mut s) in schedules.into_iter().enumerate() {
        let steps = run(&mut s);
        assert_eq!(steps[steps.len() - 2], WorkStep::End(b as u32));
    }
}

#[test]
fn worker_count_is_at_least_one() {
    assert!(SimpleTracer::new().worker_count() >= 1);
}

#[test]
fn one_worker_per_cpu() {
    assert_eq!(workers_for(1), 1);
    assert_eq!(workers_for(8), 8);
    assert_eq!(workers_for(u32::MAX as usize), u32::MAX);
    assert_eq!(workers_for(u32::MAX as usize + 1), u32::MAX);
}
