use raytracer::{Accumulator, Action, PixelInfo, ProtocolError, SimpleTracer, ViewGrid, WorkStep};

fn pixel(x: u32, y: u32, s: u32) -> PixelInfo<()> {
    PixelInfo::Pixel(x, y, (), s)
}

#[test]
fn pixels_go_to_row_major_indices() {
    let g = ViewGrid::new(3, 2, 4).unwrap();
    let mut a = Accumulator::new(&g, 1);
    assert_eq!(a.on_message(&pixel(0, 0, 1)), Ok(Action::Accumulate(0)));
    assert_eq!(a.on_message(&pixel(2, 1, 1)), Ok(Action::Accumulate(5)));
    assert_eq!(a.on_message(&pixel(2, 1, 2)), Ok(Action::Accumulate(5)));
    assert_eq!(a.samples_at(5), 2);
    assert_eq!(a.samples_at(0), 1);
    assert_eq!(a.samples_at(1), 0);
}

#[test]
fn protocol_errors() {
    let g = ViewGrid::new(3, 2, 1).unwrap();
    let mut a = Accumulator::new(&g, 2);
    assert_eq!(a.on_message(&pixel(3, 0, 1)), Err(ProtocolError::PixelOutOfRange));
    assert_eq!(a.on_message(&pixel(0, 2, 1)), Err(ProtocolError::PixelOutOfRange));
    assert_eq!(a.on_message(&pixel(0, 0, 2)), Err(ProtocolError::OutOfOrder));
    assert_eq!(a.on_message(&pixel(0, 0, 1)), Ok(Action::Accumulate(0)));
    // a second sample where only one per pixel is configured
    assert_eq!(a.on_message(&pixel(0, 0, 2)), Err(ProtocolError::OutOfOrder));
    let sc: PixelInfo<()> = PixelInfo::SampleComplete(1, 2);
    assert_eq!(a.on_message(&sc), Err(ProtocolError::UnknownBand));
    let end: PixelInfo<()> = PixelInfo::End(5);
    assert_eq!(a.on_message(&end), Err(ProtocolError::UnknownBand));
    // ending before the band's passes are complete
    let end: PixelInfo<()> = PixelInfo::End(0);
    assert_eq!(a.on_message(&end), Err(ProtocolError::OutOfOrder));
    let sc: PixelInfo<()> = PixelInfo::SampleComplete(2, 0);
    assert_eq!(a.on_message(&sc), Err(ProtocolError::OutOfOrder));
    let sc: PixelInfo<()> = PixelInfo::SampleComplete(1, 0);
    assert_eq!(a.on_message(&sc), Ok(Action::Snapshot(50)));
    assert_eq!(a.on_message(&sc), Err(ProtocolError::OutOfOrder));
    let end: PixelInfo<()> = PixelInfo::End(0);
    assert_eq!(a.on_message(&end), Ok(Action::Continue));
    assert_eq!(a.on_message(&end), Err(ProtocolError::OutOfOrder));
}

#[test]
fn snapshots_when_progress_crosses_a_tenth() {
    let g = ViewGrid::new(1, 1, 16).unwrap();
    let mut a = Accumulator::new(&g, 2);
    let mut snapshots = Vec::new();
    for s in 1..=16u32 {
        for b in 0..2u32 {
            let m: PixelInfo<()> = PixelInfo::SampleComplete(s, b);
            match a.on_message(&m) {
                Ok(Action::Snapshot(p)) => snapshots.push(p),
                Ok(Action::Continue) => {}
                other => panic!("unexpected {:?}", other),
            }
        }
    }
    // 32 passes in all: tenths are crossed after 4, 7, 10, 13, 16, 20, 23,
    // 26, 29 and 32 of them.
    assert_eq!(snapshots, vec![12, 21, 31, 40, 50, 62, 71, 81, 90, 100]);
}

#[test]
fn finishes_when_the_last_band_ends() {
    let g = ViewGrid::new(1, 1, 1).unwrap();
    let mut a = Accumulator::new(&g, 3);
    for b in 0..3u32 {
        let m: PixelInfo<()> = PixelInfo::SampleComplete(1, b);
        assert!(a.on_message(&m).is_ok());
    }
    let e: [PixelInfo<()>; 3] = [PixelInfo::End(2), PixelInfo::End(0), PixelInfo::End(1)];
    assert_eq!(a.on_message(&e[0]), Ok(Action::Continue));
    assert_eq!(a.on_message(&e[1]), Ok(Action::Continue));
    assert_eq!(a.on_message(&e[2]), Ok(Action::Finish));
}

#[test]
fn interleaved_workers_render_every_pixel_fully() {
    let g = ViewGrid::new(4, 5, 4).unwrap();
    let workers = 3;
    let mut schedules = SimpleTracer::new().schedules(&g, workers);
    let mut a = Accumulator::new(&g, workers);
    let mut live = vec![true; workers as usize];
    let mut finished = false;
    let mut turn = 0usize;
    while live.iter().any(|&l| l) {
        let w = turn % workers as usize;
        turn += 1;
        if !live[w] {
            continue;
        }
        let msg: PixelInfo<()> = match schedules[w].next() {
            WorkStep::Trace(j) => PixelInfo::Pixel(j.img_x, j.img_y, (), j.sample_no),
            WorkStep::SampleComplete(s, b) => PixelInfo::SampleComplete(s, b),
            WorkStep::End(b) => PixelInfo::End(b),
            WorkStep::Done => {
                live[w] = false;
                continue;
            }
        };
        let r = a.on_message(&msg);
        assert!(r.is_ok());
        assert!(!finished);
        if r == Ok(Action::Finish) {
            finished = true;
        }
    }
    assert!(finished);
    for i in 0..20 {
        assert_eq!(a.samples_at(i), 4);
    }
}
