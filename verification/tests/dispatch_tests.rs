use raytracer::dispatch::Dispatcher;
use raytracer::image_types::ImageIter;
use raytracer::image_types::Rect;

/// Runs the dispatch protocol to completion without real workers: fill the
/// pool, then answer each handed-out tile with a completion.  Returns every
/// tile that was dispatched, in order.
fn run_dispatch(w: u32, h: u32, budget: u32) -> Vec<Rect> {
    let mut d = Dispatcher::for_render(w, h, budget);
    let mut handed = Vec::new();
    let mut in_flight = 0u32;
    for _ in 0..budget {
        match d.launch() {
            Some(rect) => {
                handed.push(rect);
                in_flight += 1;
            }
            None => break,
        }
    }
    while !d.finished() {
        // One of the busy workers reports back.
        match d.collect() {
            Some(rect) => handed.push(rect),
            None => in_flight -= 1,
        }
        assert!(in_flight <= budget);
    }
    assert_eq!(in_flight, 0);
    handed
}

#[test]
fn dispatch_hands_out_every_tile_exactly_once() {
    let (w, h) = (300u32, 200u32);
    let handed = run_dispatch(w, h, 3);
    let mut expected = Vec::new();
    let mut it = ImageIter::for_image_dimensions(w, h);
    while let Some(rect) = it.next() {
        expected.push(rect);
    }
    assert_eq!(handed, expected);
    assert_eq!(handed.len() as u32, ImageIter::for_image_dimensions(w, h).number_of_tiles());
}

#[test]
fn dispatch_with_more_workers_than_tiles() {
    // 640 x 100 has five tiles in a single row; a pool of eight stops
    // filling after the fifth launch.
    let handed = run_dispatch(640, 100, 8);
    assert_eq!(handed.len(), 5);
}

#[test]
fn dispatch_with_single_worker() {
    let handed = run_dispatch(300, 200, 1);
    assert_eq!(handed.len(), 6);
}

#[test]
fn dispatch_of_empty_image_finishes_immediately() {
    let mut d = Dispatcher::for_render(0, 0, 4);
    assert!(d.launch().is_none());
    assert!(d.finished());
}
