use crate::catch::attributes::{with_tiny_droplets, ObjectAccumulator};
use crate::model::hit_object::Slider;
use rosu_map::section::hit_objects::PathControlPoint;
use vstd::arithmetic::power2::{lemma2_to64, lemma_pow2_pos, lemma_pow2_unfold, pow2};
use vstd::prelude::*;

verus! {

/// What a nested object of a juice stream is.
#[derive(Copy, Clone, Debug, PartialEq, Eq, Structural)]
pub enum NestedJuiceStreamObjectKind {
    Fruit,
    Droplet,
    TinyDroplet,
}

/// A scoring sub-object of a slider.
///
/// A tiny droplet carries zero for position and time: it counts, and that is
/// all it does.
#[derive(Copy, Clone, Debug, PartialEq, Eq, Structural)]
pub struct NestedJuiceStreamObject {
    pub pos: i64,
    pub start_time: i64,
    pub kind: NestedJuiceStreamObjectKind,
}

/// What a point on a slider's path marks.
#[derive(Copy, Clone, Debug, PartialEq, Eq, Structural)]
pub enum SliderPathEventKind {
    Head,
    Tick,
    Repeat,
    LastTick,
    Tail,
}

/// A timed point on a slider's path.
#[derive(Copy, Clone, Debug, PartialEq, Eq, Structural)]
pub struct SliderPathEvent {
    pub kind: SliderPathEventKind,
    /// In microseconds.
    pub time: i64,
    /// How far the path has moved horizontally from the slider's start when
    /// it reaches this point, in the unit of the slider's position.
    pub path_x: i32,
}

/// Scratch space that a caller keeps across the sliders of one map.
pub struct JuiceStreamBufs {
    pub nested_objects: Vec<NestedJuiceStreamObject>,
}

/// A slider taken apart into the objects a player reacts to.
pub struct JuiceStream<'a> {
    /// The slider's own control vertices.
    pub control_points: &'a [PathControlPoint],
    /// The nested objects, in the order of the events they came from.
    pub nested_objects: Vec<NestedJuiceStreamObject>,
}

/// A gap between two events is filled with tiny droplets only if it is longer
/// than this many microseconds.
pub const TINY_DROPLET_GAP: i64 = 80_000;

/// The most microseconds that may lie between two tiny droplets.
pub const TINY_DROPLET_SPACING: i64 = 100_000;

/// The first map format version whose tick spacing follows the slider
/// velocity.
pub const TICK_VELOCITY_VERSION: i32 = 8;

/// How often `gap` must be halved until it is at most `limit`. Halving the
/// gap and doubling the limit come to the same, and the latter stays within
/// the integers.
pub open spec fn halvings(gap: int, limit: int) -> nat
    decreases
            (if gap > limit {
                gap - limit
            } else {
                0
            }),
{
    if limit <= 0 || gap <= limit {
        0
    } else {
        1 + halvings(gap, 2 * limit)
    }
}

/// How many tiny droplets fill a gap of `gap` microseconds.
///
/// A gap of at most [`TINY_DROPLET_GAP`] gets none. A longer one is halved
/// until it is at most [`TINY_DROPLET_SPACING`]; with `h` halvings that unit
/// is `gap / 2^h`, and its multiples below `gap` are the first `2^h - 1`.
pub open spec fn tiny_droplet_count(gap: int) -> nat {
    if gap > TINY_DROPLET_GAP {
        (pow2(halvings(gap, TINY_DROPLET_SPACING as int)) - 1) as nat
    } else {
        0
    }
}

/// The tiny droplet.
pub open spec fn tiny_droplet() -> NestedJuiceStreamObject {
    NestedJuiceStreamObject { pos: 0, start_time: 0, kind: NestedJuiceStreamObjectKind::TinyDroplet }
}

/// `n` tiny droplets in a row.
pub open spec fn tiny_droplets(n: nat) -> Seq<NestedJuiceStreamObject> {
    Seq::new(n, |i: int| tiny_droplet())
}

/// Where a decomposition stands after some of a slider's events.
pub struct Decomposition<A> {
    /// The objects emitted so far.
    pub objects: Seq<NestedJuiceStreamObject>,
    /// The accumulator as the emitted objects left it.
    pub attrs: A,
    /// The time of the last event that emitted an object.
    pub last_event_time: Option<i64>,
}

/// The state before the first event.
pub open spec fn start<A: ObjectAccumulator>(attrs: A) -> Decomposition<A> {
    Decomposition { objects: Seq::empty(), attrs, last_event_time: None }
}

/// How many tiny droplets go in front of an event at `time`. The accumulator
/// is asked at every event that has a predecessor.
pub open spec fn gap_fill<A: ObjectAccumulator>(state: Decomposition<A>, time: i64) -> nat {
    match state.last_event_time {
        Some(last) if state.attrs.wants_more() => tiny_droplet_count(time - last),
        _ => 0,
    }
}

/// The object that an event other than the last tick turns into, for a slider
/// that starts at `x`.
pub open spec fn nested_of(x: i32, event: SliderPathEvent) -> NestedJuiceStreamObject {
    NestedJuiceStreamObject {
        pos: (x + event.path_x) as i64,
        start_time: event.time,
        kind: if event.kind is Tick {
            NestedJuiceStreamObjectKind::Droplet
        } else {
            NestedJuiceStreamObjectKind::Fruit
        },
    }
}

/// One event's effect. The last tick emits nothing and leaves the state as it
/// is, so the gap in front of the tail is measured from the event before the
/// last tick. Any other event is preceded by the tiny droplets that fill the
/// gap behind it, each counted once, and is then itself counted once and
/// emitted: a tick as a droplet, the others as fruits.
pub open spec fn step<A: ObjectAccumulator>(
    state: Decomposition<A>,
    x: i32,
    event: SliderPathEvent,
) -> Decomposition<A> {
    if event.kind is LastTick {
        state
    } else {
        let n = gap_fill(state, event.time);
        let filled = with_tiny_droplets(state.attrs, n);
        Decomposition {
            objects: state.objects + tiny_droplets(n) + seq![nested_of(x, event)],
            attrs: if event.kind is Tick {
                filled.with_droplet()
            } else {
                filled.with_fruit()
            },
            last_event_time: Some(event.time),
        }
    }
}

/// The state after `events`, taken in order from `state`.
pub open spec fn walk<A: ObjectAccumulator>(
    state: Decomposition<A>,
    x: i32,
    events: Seq<SliderPathEvent>,
) -> Decomposition<A>
    decreases events.len(),
{
    if events.len() == 0 {
        state
    } else {
        step(walk(state, x, events.drop_last()), x, events.last())
    }
}

/// What a slider with `span_count` spans and the given events decomposes
/// into. A slider without spans has no objects, whatever its events.
pub open spec fn decomposition<A: ObjectAccumulator>(
    x: i32,
    span_count: usize,
    events: Seq<SliderPathEvent>,
    attrs: A,
) -> Decomposition<A> {
    if span_count == 0 {
        start(attrs)
    } else {
        walk(start(attrs), x, events)
    }
}

/// Whether the tick spacing of a map of format `version` is scaled by the
/// slider velocity. Older formats space their ticks without regard to it.
pub fn tick_dist_follows_velocity(version: i32) -> (follows: bool)
    ensures
        follows == (version >= TICK_VELOCITY_VERSION),
{
    version >= TICK_VELOCITY_VERSION
}

/// The number of tiny droplets that fill the gap from `last` to `time`.
pub fn tiny_droplets_between(last: i64, time: i64) -> (n: u64)
    ensures
        n == tiny_droplet_count(time - last),
{
    let gap: i128 = time as i128 - last as i128;
    if gap <= TINY_DROPLET_GAP as i128 {
        return 0;
    }
    let mut limit: i128 = TINY_DROPLET_SPACING as i128;
    let mut n: u64 = 0;
    let ghost mut h: nat = 0;
    proof {
        lemma2_to64();
    }
    while gap > limit
        invariant
            TINY_DROPLET_GAP < gap < 0x1_0000_0000_0000_0000,
            limit == TINY_DROPLET_SPACING * pow2(h),
            n + 1 == pow2(h),
            limit < 2 * gap,
            halvings(gap as int, TINY_DROPLET_SPACING as int) == h + halvings(gap as int, limit as int),
        decreases
                (if gap > limit {
                    gap - limit
                } else {
                    0
                }),
    {
        proof {
            lemma_pow2_unfold(h + 1);
            assert((h + 1 - 1) as nat == h);
            assert(TINY_DROPLET_SPACING * (2 * pow2(h)) == 2 * (TINY_DROPLET_SPACING * pow2(h)))
                by (nonlinear_arith);
            assert(pow2(h) * 100_000 < 0x2_0000_0000_0000_0000);
        }
        limit = limit * 2;
        n = 2 * n + 1;
        proof {
            h = h + 1;
        }
    }
    n
}

impl<'a> JuiceStream<'a> {
    /// Takes a slider apart.
    ///
    /// `x` is where the slider starts and `events` are the points on its
    /// path, in the order of their times. Every emitted object is reported
    /// to `attrs`. The scratch space is emptied on entry and left empty.
    pub fn new<A: ObjectAccumulator>(
        x: i32,
        slider: &'a Slider,
        events: &[SliderPathEvent],
        attrs: &mut A,
        bufs: &mut JuiceStreamBufs,
    ) -> (stream: Self)
        ensures
            stream.control_points@ == slider.spec_control_points(),
            stream.nested_objects@ == decomposition(
                x,
                slider.spec_span_count(),
                events@,
                *old(attrs),
            ).objects,
            *final(attrs) == decomposition(
                x,
                slider.spec_span_count(),
                events@,
                *old(attrs),
            ).attrs,
            final(bufs).nested_objects@ == Seq::<NestedJuiceStreamObject>::empty(),
    {
        bufs.nested_objects.clear();
        if slider.span_count() != 0 {
            let mut last_event_time: Option<i64> = None;
            let mut i: usize = 0;
            while i < events.len()
                invariant
                    i <= events.len(),
                    (Decomposition { objects: bufs.nested_objects@, attrs: *attrs, last_event_time })
                        == walk(start(*old(attrs)), x, events@.take(i as int)),
                decreases events.len() - i,
            {
                let event = events[i];
                let ghost before = Decomposition {
                    objects: bufs.nested_objects@,
                    attrs: *attrs,
                    last_event_time,
                };
                proof {
                    let upto = events@.take(i + 1);
                    assert(upto.drop_last() == events@.take(i as int));
                    assert(upto.last() == event);
                }
                match event.kind {
                    SliderPathEventKind::LastTick => {},
                    _ => {
                        let mut n: u64 = 0;
                        if let Some(last) = last_event_time {
                            if attrs.take_more() {
                                n = tiny_droplets_between(last, event.time);
                            }
                        }
                        assert(n == gap_fill(before, event.time));
                        let mut k: u64 = 0;
                        while k < n
                            invariant
                                k <= n,
                                *attrs == with_tiny_droplets(before.attrs, k as nat),
                                bufs.nested_objects@ == before.objects + tiny_droplets(k as nat),
                            decreases n - k,
                        {
                            attrs.inc_tiny_droplets();
                            bufs.nested_objects.push(
                                NestedJuiceStreamObject {
                                    pos: 0,
                                    start_time: 0,
                                    kind: NestedJuiceStreamObjectKind::TinyDroplet,
                                },
                            );
                            k = k + 1;
                            assert(tiny_droplets(k as nat) == tiny_droplets((k - 1) as nat).push(
                                tiny_droplet(),
                            ));
                        }
                        last_event_time = Some(event.time);
                        let kind = match event.kind {
                            SliderPathEventKind::Tick => {
                                attrs.inc_droplets();
                                NestedJuiceStreamObjectKind::Droplet
                            },
                            _ => {
                                attrs.inc_fruits();
                                NestedJuiceStreamObjectKind::Fruit
                            },
                        };
                        bufs.nested_objects.push(
                            NestedJuiceStreamObject {
                                pos: x as i64 + event.path_x as i64,
                                start_time: event.time,
                                kind,
                            },
                        );
                        assert(bufs.nested_objects@ == before.objects + tiny_droplets(n as nat)
                            + seq![nested_of(x, event)]);
                    },
                }
                i = i + 1;
            }
            assert(events@.take(events.len() as int) == events@);
        }
        let mut nested_objects: Vec<NestedJuiceStreamObject> = Vec::new();
        core::mem::swap(&mut nested_objects, &mut bufs.nested_objects);
        JuiceStream { control_points: slider.control_points(), nested_objects }
    }
}

/// What the halvings of a gap come to: the unit they end on is at most
/// `limit`, and the unit of one halving less, if there was any, is above it.
pub proof fn lemma_halvings_bounds(gap: int, limit: int)
    requires
        limit > 0,
    ensures
        gap <= limit * pow2(halvings(gap, limit)),
        halvings(gap, limit) > 0 ==> limit * pow2(halvings(gap, limit)) < 2 * gap,
    decreases
            (if gap > limit {
                gap - limit
            } else {
                0
            }),
{
    lemma2_to64();
    let h = halvings(gap, limit);
    if gap > limit {
        let rest = halvings(gap, 2 * limit);
        assert(h == rest + 1);
        lemma_halvings_bounds(gap, 2 * limit);
        lemma_pow2_unfold(h);
        assert((h - 1) as nat == rest);
        assert(pow2(h) == 2 * pow2(rest));
        assert(limit * (2 * pow2(rest)) == (2 * limit) * pow2(rest)) by (nonlinear_arith);
        assert(limit * pow2(h) == (2 * limit) * pow2(rest));
        if rest == 0 {
            assert(pow2(rest) == 1);
            assert((2 * limit) * pow2(rest) == 2 * limit) by (nonlinear_arith)
                requires
                    pow2(rest) == 1,
            ;
        }
    } else {
        assert(pow2(h) == 1);
        assert(limit * pow2(h) == limit) by (nonlinear_arith)
            requires
                pow2(h) == 1,
        ;
    }
}

/// The tiny droplets of a gap stand for the multiples of its unit that lie
/// below the gap. With `h` halvings the unit is `gap / 2^h`, so its `k`-th
/// multiple lies below the gap exactly if `k * gap < 2^h * gap`; the law says
/// that these are the multiples from the first to the
/// `tiny_droplet_count(gap)`-th. It also says that `h` is the number of
/// halvings meant: the unit is at most the spacing, and one halving less
/// would leave it above.
pub proof fn lemma_tiny_droplets_are_unit_multiples(gap: int, k: int)
    requires
        gap > TINY_DROPLET_GAP,
        k >= 1,
    ensures
        gap <= TINY_DROPLET_SPACING * pow2(halvings(gap, TINY_DROPLET_SPACING as int)),
        halvings(gap, TINY_DROPLET_SPACING as int) > 0 ==> TINY_DROPLET_SPACING * pow2(
            halvings(gap, TINY_DROPLET_SPACING as int),
        ) < 2 * gap,
        k * gap < pow2(halvings(gap, TINY_DROPLET_SPACING as int)) * gap <==> k
            <= tiny_droplet_count(gap),
{
    let h = halvings(gap, TINY_DROPLET_SPACING as int);
    let p = pow2(h) as int;
    lemma_halvings_bounds(gap, TINY_DROPLET_SPACING as int);
    lemma_pow2_pos(h);
    assert(k * gap < p * gap <==> k < p) by (nonlinear_arith)
        requires
            gap > 0,
    ;
}

/// A gap of at most [`TINY_DROPLET_GAP`] gets no tiny droplet, and neither
/// does one of at most [`TINY_DROPLET_SPACING`].
pub proof fn lemma_short_gap_stays_empty(gap: int)
    requires
        gap <= TINY_DROPLET_SPACING,
    ensures
        tiny_droplet_count(gap) == 0,
{
    lemma2_to64();
}

/// Whether `objects[i]` stands in a run of tiny droplets that is enclosed by
/// the objects at `j` and `k`, neither of them tiny, whose times lie more
/// than [`TINY_DROPLET_GAP`] apart.
pub open spec fn fills_long_gap(
    objects: Seq<NestedJuiceStreamObject>,
    j: int,
    i: int,
    k: int,
) -> bool {
    &&& 0 <= j < i < k < objects.len()
    &&& !(objects[j].kind is TinyDroplet)
    &&& !(objects[k].kind is TinyDroplet)
    &&& forall|m: int| j < m < k ==> (#[trigger] objects[m]).kind is TinyDroplet
    &&& objects[k].start_time - objects[j].start_time > TINY_DROPLET_GAP
}

/// What holds of the objects of every state that a walk reaches from the
/// start: the last object is the last event's, and every tiny droplet fills a
/// long gap.
pub open spec fn well_spaced<A>(state: Decomposition<A>) -> bool {
    &&& state.last_event_time is Some <==> state.objects.len() > 0
    &&& state.objects.len() > 0 ==> {
        &&& !(state.objects.last().kind is TinyDroplet)
        &&& state.objects.last().start_time == state.last_event_time->0
    }
    &&& forall|i: int|
        0 <= i < state.objects.len() && (#[trigger] state.objects[i]).kind is TinyDroplet
            ==> exists|j: int, k: int| fills_long_gap(state.objects, j, i, k)
}

proof fn lemma_step_keeps_well_spaced<A: ObjectAccumulator>(
    state: Decomposition<A>,
    x: i32,
    event: SliderPathEvent,
)
    requires
        well_spaced(state),
    ensures
        well_spaced(step(state, x, event)),
{
    if !(event.kind is LastTick) {
        let next = step(state, x, event);
        let n = gap_fill(state, event.time);
        let old_len = state.objects.len() as int;
        assert(next.objects.len() == old_len + n + 1);
        assert(next.objects.last() == nested_of(x, event));
        assert forall|i: int|
            0 <= i < next.objects.len() && (#[trigger] next.objects[i]).kind is TinyDroplet
            implies exists|j: int, k: int| fills_long_gap(next.objects, j, i, k) by {
            if i < old_len {
                assert(next.objects[i] == state.objects[i]);
                let (j, k) = choose|j: int, k: int| fills_long_gap(state.objects, j, i, k);
                assert forall|m: int| j < m < k implies (#[trigger] next.objects[m]).kind
                    is TinyDroplet by {
                    assert(next.objects[m] == state.objects[m]);
                }
                assert(next.objects[j] == state.objects[j]);
                assert(next.objects[k] == state.objects[k]);
                assert(fills_long_gap(next.objects, j, i, k));
            } else {
                assert(i < old_len + n);
                assert(n > 0);
                lemma2_to64();
                let j = old_len - 1;
                let k = old_len + n;
                assert(next.objects[j] == state.objects[j]);
                assert forall|m: int| j < m < k implies (#[trigger] next.objects[m]).kind
                    is TinyDroplet by {
                    assert(next.objects[m] == tiny_droplets(n)[m - old_len]);
                }
                assert(fills_long_gap(next.objects, j, i, k));
            }
        }
    }
}

proof fn lemma_walk_keeps_well_spaced<A: ObjectAccumulator>(
    state: Decomposition<A>,
    x: i32,
    events: Seq<SliderPathEvent>,
)
    requires
        well_spaced(state),
    ensures
        well_spaced(walk(state, x, events)),
    decreases events.len(),
{
    if events.len() > 0 {
        lemma_walk_keeps_well_spaced(state, x, events.drop_last());
        lemma_step_keeps_well_spaced(walk(state, x, events.drop_last()), x, events.last());
    }
}

/// No tiny droplet is emitted into a gap of at most [`TINY_DROPLET_GAP`]:
/// wherever a decomposition holds a tiny droplet, the nearest objects before
/// and after it that are not tiny lie further apart than that.
pub proof fn lemma_tiny_droplets_fill_long_gaps<A: ObjectAccumulator>(
    x: i32,
    span_count: usize,
    events: Seq<SliderPathEvent>,
    attrs: A,
    i: int,
)
    requires
        0 <= i < decomposition(x, span_count, events, attrs).objects.len(),
        decomposition(x, span_count, events, attrs).objects[i].kind is TinyDroplet,
    ensures
        exists|j: int, k: int|
            fills_long_gap(decomposition(x, span_count, events, attrs).objects, j, i, k),
{
    lemma_walk_keeps_well_spaced(start(attrs), x, events);
}

/// A slider without spans decomposes into nothing and reports nothing.
pub proof fn lemma_no_spans_no_objects<A: ObjectAccumulator>(
    x: i32,
    events: Seq<SliderPathEvent>,
    attrs: A,
)
    ensures
        decomposition(x, 0, events, attrs).objects == Seq::<NestedJuiceStreamObject>::empty(),
        decomposition(x, 0, events, attrs).attrs == attrs,
{
}

/// A walk over a sequence of events is the walk over its first `cut` events,
/// carried on over the rest.
pub proof fn lemma_walk_split<A: ObjectAccumulator>(
    state: Decomposition<A>,
    x: i32,
    events: Seq<SliderPathEvent>,
    cut: int,
)
    requires
        0 <= cut <= events.len(),
    ensures
        walk(state, x, events) == walk(walk(state, x, events.take(cut)), x, events.skip(cut)),
    decreases events.len(),
{
    if cut == events.len() {
        assert(events.take(cut) == events);
        assert(events.skip(cut).len() == 0);
    } else {
        lemma_walk_split(state, x, events.drop_last(), cut);
        assert(events.drop_last().take(cut) == events.take(cut));
        assert(events.drop_last().skip(cut) == events.skip(cut).drop_last());
        assert(events.skip(cut).last() == events.last());
    }
}

/// From a state whose accumulator wants no more detail, a walk emits no tiny
/// droplet: it keeps what was emitted before, adds objects that are fruits
/// and droplets, and ends with the signal still closed.
pub proof fn lemma_closed_walk_adds_no_tiny_droplet<A: ObjectAccumulator>(
    state: Decomposition<A>,
    x: i32,
    events: Seq<SliderPathEvent>,
)
    requires
        !state.attrs.wants_more(),
    ensures
        !walk(state, x, events).attrs.wants_more(),
        state.objects.len() <= walk(state, x, events).objects.len(),
        walk(state, x, events).objects.take(state.objects.len() as int) == state.objects,
        forall|i: int|
            state.objects.len() <= i < walk(state, x, events).objects.len() ==> !((
            #[trigger] walk(state, x, events).objects[i]).kind is TinyDroplet),
    decreases events.len(),
{
    if events.len() == 0 {
        assert(state.objects.take(state.objects.len() as int) == state.objects);
    } else {
        let before = walk(state, x, events.drop_last());
        lemma_closed_walk_adds_no_tiny_droplet(state, x, events.drop_last());
        let after = step(before, x, events.last());
        if !(events.last().kind is LastTick) {
            assert(gap_fill(before, events.last().time) == 0);
            assert(tiny_droplets(0) == Seq::<NestedJuiceStreamObject>::empty());
            assert(after.objects == before.objects.push(nested_of(x, events.last())));
            before.attrs.lemma_closed_stays_closed();
            assert(after.objects.take(state.objects.len() as int) == before.objects.take(
                state.objects.len() as int,
            ));
        }
    }
}

/// Once the accumulator has said that it wants no more detail, the rest of
/// the slider gets no tiny droplet, however long its gaps: if the signal is
/// closed after the first `cut` events, every object that the decomposition
/// emits after the objects of those events is a fruit or a droplet.
pub proof fn lemma_no_tiny_droplets_once_closed<A: ObjectAccumulator>(
    x: i32,
    events: Seq<SliderPathEvent>,
    attrs: A,
    cut: int,
    i: int,
)
    requires
        0 <= cut <= events.len(),
        !walk(start(attrs), x, events.take(cut)).attrs.wants_more(),
        walk(start(attrs), x, events.take(cut)).objects.len() <= i < walk(
            start(attrs),
            x,
            events,
        ).objects.len(),
    ensures
        !(walk(start(attrs), x, events).objects[i].kind is TinyDroplet),
{
    lemma_walk_split(start(attrs), x, events, cut);
    lemma_closed_walk_adds_no_tiny_droplet(
        walk(start(attrs), x, events.take(cut)),
        x,
        events.skip(cut),
    );
}

/// The accumulator after every object of `objects` was reported to it once,
/// in order, each to the counter of its kind.
pub open spec fn counted<A: ObjectAccumulator>(
    attrs: A,
    objects: Seq<NestedJuiceStreamObject>,
) -> A
    decreases objects.len(),
{
    if objects.len() == 0 {
        attrs
    } else {
        let before = counted(attrs, objects.drop_last());
        match objects.last().kind {
            NestedJuiceStreamObjectKind::Fruit => before.with_fruit(),
            NestedJuiceStreamObjectKind::Droplet => before.with_droplet(),
            NestedJuiceStreamObjectKind::TinyDroplet => before.with_tiny_droplet(),
        }
    }
}

proof fn lemma_counted_tiny_droplets<A: ObjectAccumulator>(
    attrs: A,
    objects: Seq<NestedJuiceStreamObject>,
    n: nat,
)
    ensures
        counted(attrs, objects + tiny_droplets(n)) == with_tiny_droplets(
            counted(attrs, objects),
            n,
        ),
    decreases n,
{
    if n == 0 {
        assert(objects + tiny_droplets(0) == objects);
    } else {
        let shorter = objects + tiny_droplets((n - 1) as nat);
        lemma_counted_tiny_droplets(attrs, objects, (n - 1) as nat);
        assert((objects + tiny_droplets(n)).drop_last() == shorter);
        assert((objects + tiny_droplets(n)).last() == tiny_droplet());
    }
}

proof fn lemma_walk_counts_every_object<A: ObjectAccumulator>(
    state: Decomposition<A>,
    x: i32,
    events: Seq<SliderPathEvent>,
    attrs: A,
)
    requires
        state.attrs == counted(attrs, state.objects),
    ensures
        walk(state, x, events).attrs == counted(attrs, walk(state, x, events).objects),
    decreases events.len(),
{
    if events.len() > 0 {
        let before = walk(state, x, events.drop_last());
        let event = events.last();
        lemma_walk_counts_every_object(state, x, events.drop_last(), attrs);
        if !(event.kind is LastTick) {
            let n = gap_fill(before, event.time);
            let filled = before.objects + tiny_droplets(n);
            let after = step(before, x, event);
            lemma_counted_tiny_droplets(attrs, before.objects, n);
            assert(after.objects == filled.push(nested_of(x, event)));
            assert(after.objects.drop_last() == filled);
            assert(after.objects.last() == nested_of(x, event));
        }
    }
}

/// Every emitted object is reported to the accumulator exactly once, to the
/// counter of its kind and in the order of emission: the accumulator that a
/// decomposition ends with is the one it began with after the emitted
/// objects were counted one by one.
pub proof fn lemma_every_object_is_counted_once<A: ObjectAccumulator>(
    x: i32,
    span_count: usize,
    events: Seq<SliderPathEvent>,
    attrs: A,
)
    ensures
        decomposition(x, span_count, events, attrs).attrs == counted(
            attrs,
            decomposition(x, span_count, events, attrs).objects,
        ),
{
    lemma_walk_counts_every_object(start(attrs), x, events, attrs);
}

/// Whether the objects other than tiny droplets come in the order of their
/// times.
pub open spec fn in_time_order(objects: Seq<NestedJuiceStreamObject>) -> bool {
    forall|i: int, j: int|
        0 <= i < j < objects.len() && !(objects[i].kind is TinyDroplet) && !(objects[j].kind
            is TinyDroplet) ==> objects[i].start_time <= objects[j].start_time
}

proof fn lemma_walk_keeps_time_order<A: ObjectAccumulator>(
    attrs: A,
    x: i32,
    events: Seq<SliderPathEvent>,
)
    requires
        forall|i: int, j: int| 0 <= i < j < events.len() ==> events[i].time <= events[j].time,
    ensures
        in_time_order(walk(start(attrs), x, events).objects),
        forall|i: int|
            0 <= i < walk(start(attrs), x, events).objects.len() && !((#[trigger] walk(
                start(attrs),
                x,
                events,
            ).objects[i]).kind is TinyDroplet) ==> events.len() > 0 && walk(
                start(attrs),
                x,
                events,
            ).objects[i].start_time <= events.last().time,
    decreases events.len(),
{
    if events.len() > 0 {
        let earlier = events.drop_last();
        let event = events.last();
        let before = walk(start(attrs), x, earlier);
        let after = walk(start(attrs), x, events);
        assert forall|i: int, j: int| 0 <= i < j < earlier.len() implies earlier[i].time
            <= earlier[j].time by {
            assert(earlier[i] == events[i] && earlier[j] == events[j]);
        }
        lemma_walk_keeps_time_order(attrs, x, earlier);
        if earlier.len() > 0 {
            assert(earlier.last() == events[events.len() - 2]);
        }
        if !(event.kind is LastTick) {
            let n = gap_fill(before, event.time);
            let old_len = before.objects.len() as int;
            assert forall|i: int| 0 <= i < after.objects.len() implies (if i < old_len {
                after.objects[i] == before.objects[i]
            } else if i < old_len + n {
                after.objects[i] == tiny_droplet()
            } else {
                after.objects[i] == nested_of(x, event)
            }) by {
                if old_len <= i < old_len + n {
                    assert(after.objects[i] == tiny_droplets(n)[i - old_len]);
                }
            }
        }
    }
}

/// The objects that stand for events keep the order of time: where the
/// events' times never decrease, neither do the times of the fruits and
/// droplets of the decomposition.
pub proof fn lemma_objects_in_time_order<A: ObjectAccumulator>(
    x: i32,
    span_count: usize,
    events: Seq<SliderPathEvent>,
    attrs: A,
)
    requires
        forall|i: int, j: int| 0 <= i < j < events.len() ==> events[i].time <= events[j].time,
    ensures
        in_time_order(decomposition(x, span_count, events, attrs).objects),
{
    lemma_walk_keeps_time_order(attrs, x, events);
}

} // verus!
