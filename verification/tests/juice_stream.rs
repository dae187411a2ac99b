use rosu_map::section::general::GameMode;
use rosu_map::section::hit_objects::{
    Curve, CurveBuffers, PathControlPoint, SliderEvent, SliderEventType, SliderEventsIter,
};
use rosu_map::util::Pos;
use rosu_pp::catch::attributes::{CatchDifficultyAttributesBuilder, ObjectAccumulator};
use rosu_pp::catch::object::juice_stream::{
    tick_dist_follows_velocity, tiny_droplets_between, JuiceStream, JuiceStreamBufs,
    NestedJuiceStreamObject, NestedJuiceStreamObjectKind, SliderPathEvent, SliderPathEventKind,
    TICK_VELOCITY_VERSION, TINY_DROPLET_GAP, TINY_DROPLET_SPACING,
};
use rosu_pp::model::hit_object::{Slider, SliderError};

fn event(kind: SliderPathEventKind, time: i64, path_x: i32) -> SliderPathEvent {
    SliderPathEvent { kind, time, path_x }
}

fn straight_path() -> Vec<PathControlPoint> {
    vec![
        PathControlPoint::new(Pos::new(0.0, 0.0)),
        PathControlPoint::new(Pos::new(200.0, 0.0)),
    ]
}

fn slider(span_count: usize) -> Slider {
    Slider::new(straight_path(), span_count).unwrap()
}

fn fruit(pos: i64, start_time: i64) -> NestedJuiceStreamObject {
    NestedJuiceStreamObject { pos, start_time, kind: NestedJuiceStreamObjectKind::Fruit }
}

fn droplet(pos: i64, start_time: i64) -> NestedJuiceStreamObject {
    NestedJuiceStreamObject { pos, start_time, kind: NestedJuiceStreamObjectKind::Droplet }
}

fn tiny() -> NestedJuiceStreamObject {
    NestedJuiceStreamObject { pos: 0, start_time: 0, kind: NestedJuiceStreamObjectKind::TinyDroplet }
}

fn decompose(
    x: i32,
    span_count: usize,
    events: &[SliderPathEvent],
    take: usize,
) -> (Vec<NestedJuiceStreamObject>, CatchDifficultyAttributesBuilder) {
    let slider = slider(span_count);
    let mut attrs = CatchDifficultyAttributesBuilder::new(take);
    let mut bufs = JuiceStreamBufs { nested_objects: Vec::new() };
    let stream = JuiceStream::new(x, &slider, events, &mut attrs, &mut bufs);
    assert!(bufs.nested_objects.is_empty());
    (stream.nested_objects, attrs)
}

fn count(objects: &[NestedJuiceStreamObject], kind: NestedJuiceStreamObjectKind) -> usize {
    objects.iter().filter(|object| object.kind == kind).count()
}

fn micros(ms: f64) -> i64 {
    (ms * 1000.0).round() as i64
}

fn kind_of(kind: SliderEventType) -> SliderPathEventKind {
    match kind {
        SliderEventType::Head => SliderPathEventKind::Head,
        SliderEventType::Tick => SliderPathEventKind::Tick,
        SliderEventType::Repeat => SliderPathEventKind::Repeat,
        SliderEventType::LastTick => SliderPathEventKind::LastTick,
        SliderEventType::Tail => SliderPathEventKind::Tail,
    }
}

#[test]
fn constants_are_in_microseconds() {
    assert_eq!(TINY_DROPLET_GAP, 80_000);
    assert_eq!(TINY_DROPLET_SPACING, 100_000);
    assert_eq!(TICK_VELOCITY_VERSION, 8);
}

#[test]
fn zero_span_count_yields_no_objects() {
    let events = vec![
        event(SliderPathEventKind::Head, 0, 0),
        event(SliderPathEventKind::LastTick, 500_000, 0),
        event(SliderPathEventKind::Tail, 1_000_000, 0),
    ];
    let (objects, attrs) = decompose(7, 0, &events, 100);
    assert!(objects.is_empty());
    assert_eq!(attrs, CatchDifficultyAttributesBuilder::new(100));
}

#[test]
fn no_events_yield_no_objects() {
    let (objects, attrs) = decompose(7, 1, &[], 100);
    assert!(objects.is_empty());
    assert_eq!(attrs, CatchDifficultyAttributesBuilder::new(100));
}

#[test]
fn tiny_droplet_counts_by_gap() {
    assert_eq!(tiny_droplets_between(0, 0), 0);
    assert_eq!(tiny_droplets_between(0, 80_000), 0);
    assert_eq!(tiny_droplets_between(0, 80_001), 0);
    assert_eq!(tiny_droplets_between(0, 100_000), 0);
    assert_eq!(tiny_droplets_between(0, 100_001), 1);
    assert_eq!(tiny_droplets_between(0, 200_000), 1);
    assert_eq!(tiny_droplets_between(0, 200_001), 3);
    assert_eq!(tiny_droplets_between(0, 400_000), 3);
    assert_eq!(tiny_droplets_between(0, 400_001), 7);
    assert_eq!(tiny_droplets_between(0, 800_000), 7);
    assert_eq!(tiny_droplets_between(1_000, 301_000), 3);
    assert_eq!(tiny_droplets_between(-150_000, 150_000), 3);
}

#[test]
fn tiny_droplet_count_of_backward_and_extreme_gaps() {
    assert_eq!(tiny_droplets_between(500, 300), 0);
    assert_eq!(tiny_droplets_between(i64::MAX, i64::MIN), 0);
    // 2^64 - 1 microseconds need 48 halvings to come under the spacing
    assert_eq!(tiny_droplets_between(i64::MIN, i64::MAX), (1u64 << 48) - 1);
}

#[test]
fn tick_spacing_version_gate() {
    assert!(!tick_dist_follows_velocity(7));
    assert!(tick_dist_follows_velocity(8));
    assert!(tick_dist_follows_velocity(14));
    assert!(!tick_dist_follows_velocity(-1));
    assert!(!tick_dist_follows_velocity(i32::MIN));
    assert!(tick_dist_follows_velocity(i32::MAX));
}

#[test]
fn head_and_tail_become_fruits() {
    let events = vec![
        event(SliderPathEventKind::Head, 0, 0),
        event(SliderPathEventKind::LastTick, 164_000, 164),
        event(SliderPathEventKind::Tail, 200_000, 200),
    ];
    let (objects, attrs) = decompose(10, 1, &events, 100);
    assert_eq!(objects, vec![fruit(10, 0), tiny(), fruit(210, 200_000)]);
    assert_eq!(attrs.n_fruits, 2);
    assert_eq!(attrs.n_droplets, 0);
    assert_eq!(attrs.n_tiny_droplets, 1);
    assert_eq!(attrs.take, 98);
}

#[test]
fn ticks_become_droplets_and_repeats_fruits() {
    let events = vec![
        event(SliderPathEventKind::Head, 0, 0),
        event(SliderPathEventKind::Tick, 50_000, 50),
        event(SliderPathEventKind::Repeat, 100_000, 100),
        event(SliderPathEventKind::Tick, 150_000, 50),
        event(SliderPathEventKind::LastTick, 164_000, 36),
        event(SliderPathEventKind::Tail, 200_000, 0),
    ];
    let (objects, attrs) = decompose(-20, 2, &events, 100);
    assert_eq!(
        objects,
        vec![
            fruit(-20, 0),
            droplet(30, 50_000),
            fruit(80, 100_000),
            droplet(30, 150_000),
            fruit(-20, 200_000),
        ]
    );
    assert_eq!(attrs.n_fruits, 3);
    assert_eq!(attrs.n_droplets, 2);
    assert_eq!(attrs.n_tiny_droplets, 0);
    assert_eq!(attrs.take, 95);
}

#[test]
fn position_is_the_exact_sum() {
    let events = vec![
        event(SliderPathEventKind::Head, 0, i32::MAX),
        event(SliderPathEventKind::Tail, 1, i32::MIN),
    ];
    let (objects, _) = decompose(i32::MAX, 1, &events, 10);
    assert_eq!(objects[0].pos, 2 * (i32::MAX as i64));
    assert_eq!(objects[1].pos, -1);
    let (objects, _) = decompose(i32::MIN, 1, &events, 10);
    assert_eq!(objects[0].pos, -1);
    assert_eq!(objects[1].pos, 2 * (i32::MIN as i64));
}

#[test]
fn no_tiny_droplet_in_a_gap_of_80ms_or_less() {
    let events = vec![
        event(SliderPathEventKind::Head, 0, 0),
        event(SliderPathEventKind::Tick, 80_000, 80),
        event(SliderPathEventKind::Tick, 160_000, 160),
        event(SliderPathEventKind::Tail, 200_000, 200),
    ];
    let (objects, attrs) = decompose(0, 1, &events, 100);
    assert_eq!(count(&objects, NestedJuiceStreamObjectKind::TinyDroplet), 0);
    assert_eq!(attrs.n_tiny_droplets, 0);
    assert_eq!(objects.len(), 4);
}

#[test]
fn no_tiny_droplet_in_a_gap_between_80ms_and_100ms() {
    // such a gap is its own unit, and its first multiple is not below it
    let events = vec![
        event(SliderPathEventKind::Head, 0, 0),
        event(SliderPathEventKind::Tail, 90_000, 90),
    ];
    let (objects, _) = decompose(0, 1, &events, 100);
    assert_eq!(objects, vec![fruit(0, 0), fruit(90, 90_000)]);
}

#[test]
fn long_gaps_are_filled() {
    let events = vec![
        event(SliderPathEventKind::Head, 0, 0),
        event(SliderPathEventKind::Tick, 300_000, 30),
        event(SliderPathEventKind::Tail, 1_100_000, 110),
    ];
    let (objects, attrs) = decompose(0, 1, &events, 100);
    // 300 ms halve twice to 75 ms: 3 tiny droplets
    // 800 ms halve three times to 100 ms: 7 tiny droplets
    let mut expected = vec![fruit(0, 0)];
    expected.extend(vec![tiny(); 3]);
    expected.push(droplet(30, 300_000));
    expected.extend(vec![tiny(); 7]);
    expected.push(fruit(110, 1_100_000));
    assert_eq!(objects, expected);
    assert_eq!(attrs.n_tiny_droplets, 10);
    assert_eq!(attrs.n_fruits, 2);
    assert_eq!(attrs.n_droplets, 1);
}

#[test]
fn last_tick_is_no_anchor() {
    // measured from the head the tail's gap is 126 ms: one tiny droplet;
    // measured from the last tick neither gap would get one
    let events = vec![
        event(SliderPathEventKind::Head, 0, 0),
        event(SliderPathEventKind::LastTick, 90_000, 90),
        event(SliderPathEventKind::Tail, 126_000, 126),
    ];
    let (objects, attrs) = decompose(0, 1, &events, 100);
    assert_eq!(objects, vec![fruit(0, 0), tiny(), fruit(126, 126_000)]);
    assert_eq!(attrs.n_tiny_droplets, 1);
}

#[test]
fn last_tick_gets_no_gap_fill_and_no_count() {
    let events = vec![
        event(SliderPathEventKind::Head, 0, 0),
        event(SliderPathEventKind::LastTick, 500_000, 50),
    ];
    let (objects, attrs) = decompose(0, 1, &events, 100);
    assert_eq!(objects, vec![fruit(0, 0)]);
    assert_eq!(attrs.n_fruits, 1);
    assert_eq!(attrs.n_tiny_droplets, 0);
    assert_eq!(attrs.take, 99);
}

#[test]
fn first_event_has_no_gap() {
    let events = vec![event(SliderPathEventKind::Tick, 5_000_000, 1)];
    let (objects, attrs) = decompose(0, 1, &events, 100);
    assert_eq!(objects, vec![droplet(1, 5_000_000)]);
    assert_eq!(attrs.n_tiny_droplets, 0);
}

#[test]
fn events_out_of_order_get_no_gap_fill() {
    let events = vec![
        event(SliderPathEventKind::Head, 900_000, 0),
        event(SliderPathEventKind::Tail, 0, 0),
    ];
    let (objects, _) = decompose(0, 1, &events, 100);
    assert_eq!(objects, vec![fruit(0, 900_000), fruit(0, 0)]);
}

#[test]
fn closed_accumulator_gets_no_tiny_droplets() {
    let events = vec![
        event(SliderPathEventKind::Head, 0, 0),
        event(SliderPathEventKind::Tick, 300_000, 30),
        event(SliderPathEventKind::Tail, 1_100_000, 110),
    ];
    let (objects, attrs) = decompose(0, 1, &events, 0);
    assert_eq!(objects, vec![fruit(0, 0), droplet(30, 300_000), fruit(110, 1_100_000)]);
    assert_eq!(attrs, CatchDifficultyAttributesBuilder::new(0));
}

#[test]
fn take_more_is_asked_at_every_gap() {
    let events = vec![
        event(SliderPathEventKind::Head, 0, 0),
        event(SliderPathEventKind::Tick, 300_000, 30),
        event(SliderPathEventKind::Tail, 600_000, 60),
        event(SliderPathEventKind::Tail, 900_000, 90),
    ];
    // the head leaves a budget of one, so the first gap is filled; the tick
    // spends it, and the gaps after it stay empty
    let (objects, attrs) = decompose(0, 1, &events, 2);
    assert_eq!(
        objects,
        vec![
            fruit(0, 0),
            tiny(),
            tiny(),
            tiny(),
            droplet(30, 300_000),
            fruit(60, 600_000),
            fruit(90, 900_000),
        ]
    );
    assert_eq!(attrs.n_fruits, 1);
    assert_eq!(attrs.n_droplets, 1);
    assert_eq!(attrs.n_tiny_droplets, 3);
    assert_eq!(attrs.take, 0);
    assert!(!attrs.take_more());
}

#[test]
fn budget_spent_by_the_head_closes_the_first_gap() {
    let events = vec![
        event(SliderPathEventKind::Head, 0, 0),
        event(SliderPathEventKind::Tail, 1_000_000, 0),
    ];
    let (objects, attrs) = decompose(0, 1, &events, 1);
    assert_eq!(objects, vec![fruit(0, 0), fruit(0, 1_000_000)]);
    assert_eq!(attrs.n_fruits, 1);
    assert_eq!(attrs.n_tiny_droplets, 0);
}

#[test]
fn scratch_space_is_emptied_on_entry() {
    let slider = slider(1);
    let mut attrs = CatchDifficultyAttributesBuilder::new(10);
    let mut bufs = JuiceStreamBufs { nested_objects: vec![tiny(), droplet(1, 2)] };
    let events = vec![event(SliderPathEventKind::Head, 0, 0)];
    let stream = JuiceStream::new(3, &slider, &events, &mut attrs, &mut bufs);
    assert_eq!(stream.nested_objects, vec![fruit(3, 0)]);
    assert!(bufs.nested_objects.is_empty());
    let stream = JuiceStream::new(4, &slider, &events, &mut attrs, &mut bufs);
    assert_eq!(stream.nested_objects, vec![fruit(4, 0)]);
    assert_eq!(attrs.n_fruits, 2);
}

#[test]
fn control_points_are_handed_on() {
    let points = vec![
        PathControlPoint::new(Pos::new(1.0, 2.0)),
        PathControlPoint::new(Pos::new(3.0, 4.0)),
        PathControlPoint::new(Pos::new(5.0, 6.0)),
    ];
    let slider = Slider::new(points.clone(), 3).unwrap();
    assert_eq!(slider.span_count(), 3);
    assert_eq!(slider.control_points(), points.as_slice());
    let mut attrs = CatchDifficultyAttributesBuilder::new(10);
    let mut bufs = JuiceStreamBufs { nested_objects: Vec::new() };
    let stream = JuiceStream::new(0, &slider, &[], &mut attrs, &mut bufs);
    assert_eq!(stream.control_points, points.as_slice());
}

#[test]
fn slider_without_control_points_is_refused() {
    assert!(matches!(Slider::new(Vec::new(), 1), Err(SliderError::NoControlPoints)));
    assert!(matches!(Slider::new(Vec::new(), 0), Err(SliderError::NoControlPoints)));
    assert!(Slider::new(vec![PathControlPoint::new(Pos::new(0.0, 0.0))], 0).is_ok());
}

#[test]
fn accumulator_counts_under_its_budget() {
    let mut attrs = CatchDifficultyAttributesBuilder::new(2);
    assert!(attrs.take_more());
    attrs.inc_tiny_droplets();
    assert_eq!((attrs.n_tiny_droplets, attrs.take), (1, 2));
    attrs.inc_fruits();
    assert_eq!((attrs.n_fruits, attrs.take), (1, 1));
    attrs.inc_droplets();
    assert_eq!((attrs.n_droplets, attrs.take), (1, 0));
    assert!(!attrs.take_more());
    attrs.inc_fruits();
    attrs.inc_droplets();
    assert_eq!((attrs.n_fruits, attrs.n_droplets, attrs.take), (1, 1, 0));
    attrs.inc_tiny_droplets();
    assert_eq!(attrs.n_tiny_droplets, 2);
    assert!(!attrs.take_more());
}

#[test]
fn accumulator_counters_stop_at_the_top() {
    let mut attrs = CatchDifficultyAttributesBuilder {
        n_fruits: u32::MAX,
        n_droplets: u32::MAX,
        n_tiny_droplets: u32::MAX,
        take: 5,
    };
    attrs.inc_fruits();
    attrs.inc_droplets();
    attrs.inc_tiny_droplets();
    assert_eq!(attrs.n_fruits, u32::MAX);
    assert_eq!(attrs.n_droplets, u32::MAX);
    assert_eq!(attrs.n_tiny_droplets, u32::MAX);
    assert_eq!(attrs.take, 3);
}

#[test]
fn single_span_slider_of_200ms() {
    // one span over a path of length 200 at velocity 1: 200 ms; with the
    // default multiplier 1.4 and tick rate 1 a tick comes every 140 units
    let control_points = straight_path();
    let mut curve_bufs = CurveBuffers::default();
    let curve = Curve::new(GameMode::Catch, &control_points, Some(200.0), &mut curve_bufs);
    assert!((curve.dist() - 200.0).abs() < 1e-9);

    let span_count = 1;
    let velocity = 1.0;
    let slider_velocity = 1.0;
    let tick_multiplier = if tick_dist_follows_velocity(14) { slider_velocity } else { 1.0 };
    let tick_dist = 100.0 * 1.4 / 1.0 * tick_multiplier;
    let duration = f64::from(span_count) * curve.dist() / velocity;
    let span_duration = duration / f64::from(span_count);

    let mut ticks: Vec<SliderEvent> = Vec::new();
    let events: Vec<SliderPathEvent> = SliderEventsIter::new(
        0.0,
        span_duration,
        velocity,
        tick_dist,
        curve.dist(),
        span_count,
        &mut ticks,
    )
    .map(|e| SliderPathEvent {
        kind: kind_of(e.kind),
        time: micros(e.time),
        path_x: curve.position_at(e.path_progress).x.round() as i32,
    })
    .collect();

    let slider = Slider::new(control_points, span_count as usize).unwrap();
    let mut attrs = CatchDifficultyAttributesBuilder::new(usize::MAX);
    let mut bufs = JuiceStreamBufs { nested_objects: Vec::new() };
    let stream = JuiceStream::new(100, &slider, &events, &mut attrs, &mut bufs);
    let objects = stream.nested_objects;

    assert_eq!(objects.first(), Some(&fruit(100, 0)));
    assert_eq!(objects.last(), Some(&fruit(300, 200_000)));
    assert_eq!(count(&objects, NestedJuiceStreamObjectKind::Fruit), 2);
    let droplets: Vec<_> = objects
        .iter()
        .filter(|object| object.kind == NestedJuiceStreamObjectKind::Droplet)
        .collect();
    assert_eq!(droplets, vec![&droplet(240, 140_000)]);
    // 140 ms from head to tick take one tiny droplet, 60 ms to the tail none
    assert_eq!(objects, vec![fruit(100, 0), tiny(), droplet(240, 140_000), fruit(300, 200_000)]);
    assert_eq!(attrs.n_fruits, 2);
    assert_eq!(attrs.n_droplets, 1);
    assert_eq!(attrs.n_tiny_droplets, 1);
}

#[test]
fn fruits_and_droplets_keep_the_order_of_time() {
    let events = vec![
        event(SliderPathEventKind::Head, 1_000, 0),
        event(SliderPathEventKind::Tick, 251_000, 25),
        event(SliderPathEventKind::Repeat, 501_000, 50),
        event(SliderPathEventKind::Tick, 751_000, 25),
        event(SliderPathEventKind::LastTick, 965_000, 4),
        event(SliderPathEventKind::Tail, 1_001_000, 0),
    ];
    let (objects, _) = decompose(0, 2, &events, 100);
    let times: Vec<i64> = objects
        .iter()
        .filter(|object| object.kind != NestedJuiceStreamObjectKind::TinyDroplet)
        .map(|object| object.start_time)
        .collect();
    assert_eq!(times, vec![1_000, 251_000, 501_000, 751_000, 1_001_000]);
    // each gap of 250 ms halves twice: three tiny droplets
    assert_eq!(count(&objects, NestedJuiceStreamObjectKind::TinyDroplet), 12);
}

#[test]
fn every_object_is_counted_once() {
    let events = vec![
        event(SliderPathEventKind::Head, 0, 0),
        event(SliderPathEventKind::Tick, 150_000, 15),
        event(SliderPathEventKind::Tick, 300_000, 30),
        event(SliderPathEventKind::Repeat, 450_000, 45),
        event(SliderPathEventKind::Tick, 600_000, 30),
        event(SliderPathEventKind::LastTick, 864_000, 4),
        event(SliderPathEventKind::Tail, 900_000, 0),
    ];
    let (objects, attrs) = decompose(0, 2, &events, usize::MAX);
    assert_eq!(attrs.n_fruits as usize, count(&objects, NestedJuiceStreamObjectKind::Fruit));
    assert_eq!(attrs.n_droplets as usize, count(&objects, NestedJuiceStreamObjectKind::Droplet));
    assert_eq!(
        attrs.n_tiny_droplets as usize,
        count(&objects, NestedJuiceStreamObjectKind::TinyDroplet)
    );
    assert_eq!((attrs.n_fruits, attrs.n_droplets, attrs.n_tiny_droplets), (3, 3, 7));
    assert_eq!(attrs.take, usize::MAX - 6);
}
