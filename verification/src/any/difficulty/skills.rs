use vstd::multiset::Multiset;
use vstd::prelude::*;
use vstd::seq_lib::{
    lemma_sorted_unique, to_multiset_build, to_multiset_contains, to_multiset_insert,
    to_multiset_len,
};

verus! {

/// Trait required for [`Skill`].
pub trait ISkill {
    type DifficultyObjects<'a>: ?Sized;
}

/// Wrapper around a difficulty skill that carries a list of all difficulty
/// objects.
pub struct Skill<'a, S: ISkill> {
    pub inner: S,
    pub diff_objects: &'a S::DifficultyObjects<'a>,
}

impl<'a, S: ISkill> Skill<'a, S> {
    pub fn new(skill: S, diff_objects: &'a S::DifficultyObjects<'a>) -> (res: Self)
        ensures
            res.inner == skill,
            res.diff_objects == diff_objects,
    {
        Self { inner: skill, diff_objects }
    }
}

/// The length of a section, in microseconds.
pub const SECTION_LEN: i64 = 400_000;

/// What a [`StrainSkill`] holds, as plain values.
pub struct StrainState {
    /// The highest strain seen in the open section.
    pub curr_section_peak: i64,
    /// The time at which the open section ends.
    pub curr_section_end: i64,
    /// The peaks of the sections that are closed, oldest first.
    pub strain_peaks: Seq<i64>,
}

/// Keeps the peak strain of each section of a map.
///
/// Strain values are compared and tested for their sign and never added or
/// scaled, so they may stand for any quantity under an encoding that keeps
/// order and sign.
#[derive(Clone)]
pub struct StrainSkill {
    pub curr_section_peak: i64,
    pub curr_section_end: i64,
    pub strain_peaks: Vec<i64>,
}

impl View for StrainSkill {
    type V = StrainState;

    open spec fn view(&self) -> StrainState {
        StrainState {
            curr_section_peak: self.curr_section_peak,
            curr_section_end: self.curr_section_end,
            strain_peaks: self.strain_peaks@,
        }
    }
}

/// The state before the first object, which comes at `first_time`: no section
/// is closed, and the first boundary lies at the first object itself.
pub open spec fn started_at(first_time: i64) -> StrainState {
    StrainState { curr_section_peak: 0, curr_section_end: first_time, strain_peaks: Seq::empty() }
}

/// The end of the section that follows one ending at `end`. It stops at
/// `i64::MAX`, beyond which no object can lie.
pub open spec fn next_section_end(end: i64) -> i64 {
    if end + SECTION_LEN <= i64::MAX {
        (end + SECTION_LEN) as i64
    } else {
        i64::MAX
    }
}

/// The state after a section boundary was crossed: the open section's peak is
/// closed, and the next section opens with `initial_strain` as its peak.
pub open spec fn crossed(state: StrainState, initial_strain: i64) -> StrainState {
    StrainState {
        curr_section_peak: initial_strain,
        curr_section_end: next_section_end(state.curr_section_end),
        strain_peaks: state.strain_peaks.push(state.curr_section_peak),
    }
}

/// The state after an object of strain `strain` was seen in the open section.
pub open spec fn updated(state: StrainState, strain: i64) -> StrainState {
    StrainState {
        curr_section_peak: if strain > state.curr_section_peak {
            strain
        } else {
            state.curr_section_peak
        },
        ..state
    }
}

/// All peaks of a state: those of the closed sections, then that of the open
/// one.
pub open spec fn all_peaks(state: StrainState) -> Seq<i64> {
    state.strain_peaks.push(state.curr_section_peak)
}

/// Whether no value of `s` is followed by a greater one.
pub open spec fn descending(s: Seq<i64>) -> bool {
    forall|i: int, j: int| 0 <= i < j < s.len() ==> s[i] >= s[j]
}

/// The values of `peaks` above zero, in their order.
pub open spec fn positive(peaks: Seq<i64>) -> Seq<i64> {
    peaks.filter(|peak: i64| peak > 0)
}

/// Whether `ranked` holds the values of `peaks` above zero, each as often as
/// `peaks` does, from the greatest down. Only one sequence does.
pub open spec fn is_ranking(ranked: Seq<i64>, peaks: Seq<i64>) -> bool {
    &&& descending(ranked)
    &&& ranked.to_multiset() == positive(peaks).to_multiset()
}

impl Default for StrainSkill {
    fn default() -> (skill: Self)
        ensures
            skill@ == started_at(0),
    {
        StrainSkill { curr_section_peak: 0, curr_section_end: 0, strain_peaks: Vec::new() }
    }
}

impl StrainSkill {
    /// A skill for a map whose first object comes at `first_time`.
    pub fn starting_at(first_time: i64) -> (skill: Self)
        ensures
            skill@ == started_at(first_time),
    {
        StrainSkill { curr_section_peak: 0, curr_section_end: first_time, strain_peaks: Vec::new() }
    }

    /// Closes the open section's peak.
    pub fn save_curr_peak(&mut self)
        ensures
            final(self)@ == (StrainState {
                strain_peaks: old(self)@.strain_peaks.push(old(self)@.curr_section_peak),
                ..old(self)@
            }),
    {
        self.strain_peaks.push(self.curr_section_peak);
    }

    /// Opens a section whose peak so far is `initial_strain`.
    pub fn start_new_section_from(&mut self, initial_strain: i64)
        ensures
            final(self)@ == (StrainState { curr_section_peak: initial_strain, ..old(self)@ }),
    {
        self.curr_section_peak = initial_strain;
    }

    /// Whether an object at `time` lies beyond the open section, so that a
    /// boundary has to be crossed before the object is seen.
    pub fn section_ends_before(&self, time: i64) -> (ends: bool)
        ensures
            ends == (time > self@.curr_section_end),
    {
        time > self.curr_section_end
    }

    /// Crosses the boundary at the end of the open section.
    pub fn on_section_boundary(&mut self, initial_strain: i64)
        ensures
            final(self)@ == crossed(old(self)@, initial_strain),
    {
        self.save_curr_peak();
        self.start_new_section_from(initial_strain);
        self.curr_section_end = if self.curr_section_end <= i64::MAX - SECTION_LEN {
            self.curr_section_end + SECTION_LEN
        } else {
            i64::MAX
        };
    }

    /// Sees an object of strain `strain` in the open section.
    pub fn update(&mut self, strain: i64)
        ensures
            final(self)@ == updated(old(self)@, strain),
    {
        if strain > self.curr_section_peak {
            self.curr_section_peak = strain;
        }
    }

    /// All peaks, that of the open section last.
    pub fn get_curr_strain_peaks(self) -> (peaks: Vec<i64>)
        ensures
            peaks@ == all_peaks(self@),
    {
        let mut strain_peaks = self.strain_peaks;
        strain_peaks.push(self.curr_section_peak);
        strain_peaks
    }

    /// The peaks that count towards the difficulty, in the order in which
    /// they are weighted: those above zero, from the greatest down.
    pub fn ranked_peaks(self) -> (ranked: Vec<i64>)
        ensures
            is_ranking(ranked@, all_peaks(self@)),
    {
        let peaks = self.get_curr_strain_peaks();
        rank(&peaks)
    }
}

/// The values of `peaks` above zero, from the greatest down.
pub fn rank(peaks: &Vec<i64>) -> (ranked: Vec<i64>)
    ensures
        is_ranking(ranked@, peaks@),
{
    let mut ranked: Vec<i64> = Vec::new();
    let mut i: usize = 0;
    proof {
        assert(peaks@.take(0) == Seq::<i64>::empty());
        assert(positive(Seq::<i64>::empty()) == Seq::<i64>::empty());
        assert(ranked@ == Seq::<i64>::empty());
    }
    while i < peaks.len()
        invariant
            i <= peaks.len(),
            is_ranking(ranked@, peaks@.take(i as int)),
        decreases peaks.len() - i,
    {
        let peak = peaks[i];
        proof {
            assert(peaks@.take(i + 1) == peaks@.take(i as int).push(peak));
            peaks@.take(i as int).lemma_filter_push(peak, |peak: i64| peak > 0);
        }
        if peak > 0 {
            let mut at: usize = 0;
            while at < ranked.len() && ranked[at] >= peak
                invariant
                    at <= ranked.len(),
                    forall|k: int| 0 <= k < at ==> ranked@[k] >= peak,
                decreases ranked.len() - at,
            {
                at = at + 1;
            }
            proof {
                to_multiset_insert(ranked@, at as int, peak);
                to_multiset_build(positive(peaks@.take(i as int)), peak);
            }
            ranked.insert(at, peak);
        }
        i = i + 1;
    }
    assert(peaks@.take(peaks.len() as int) == peaks@);
    ranked
}

/// Only one sequence ranks given peaks.
pub proof fn lemma_ranking_is_unique(first: Seq<i64>, second: Seq<i64>, peaks: Seq<i64>)
    requires
        is_ranking(first, peaks),
        is_ranking(second, peaks),
    ensures
        first == second,
{
    let geq = |a: i64, b: i64| a >= b;
    assert(vstd::relations::total_ordering(geq));
    assert(vstd::relations::sorted_by(first, geq));
    assert(vstd::relations::sorted_by(second, geq));
    lemma_sorted_unique(first, second, geq);
}

/// A ranking is as long as there are values above zero; where nothing lies
/// above zero, nothing is ranked.
pub proof fn lemma_ranking_len(ranked: Seq<i64>, peaks: Seq<i64>)
    requires
        is_ranking(ranked, peaks),
    ensures
        ranked.len() == positive(peaks).len(),
        (forall|i: int| 0 <= i < peaks.len() ==> peaks[i] <= 0) ==> ranked.len() == 0,
{
    to_multiset_len(ranked);
    to_multiset_len(positive(peaks));
    if forall|i: int| 0 <= i < peaks.len() ==> peaks[i] <= 0 {
        let above_zero = |peak: i64| peak > 0;
        assert(peaks.all(|peak: i64| !above_zero(peak)));
        peaks.lemma_all_neg_filter_empty(above_zero);
    }
}

/// How many values of `s` are at least `v`.
pub open spec fn count_at_least(s: Seq<i64>, v: i64) -> nat
    decreases s.len(),
{
    if s.len() == 0 {
        0
    } else {
        count_at_least(s.drop_last(), v) + if s.last() >= v {
            1nat
        } else {
            0nat
        }
    }
}

/// The values of a multiset that are at least `v`.
pub open spec fn at_least(m: Multiset<i64>, v: i64) -> Multiset<i64> {
    m.filter(|x: i64| x >= v)
}

proof fn lemma_count_by_multiset(s: Seq<i64>, v: i64)
    ensures
        count_at_least(s, v) == at_least(s.to_multiset(), v).len(),
    decreases s.len(),
{
    broadcast use vstd::multiset::group_multiset_axioms;

    if s.len() == 0 {
        s.to_multiset_ensures();
        assert(s.to_multiset().len() == 0);
        assert(at_least(s.to_multiset(), v) =~= Multiset::<i64>::empty());
    } else {
        let rest = s.drop_last();
        let last = s.last();
        lemma_count_by_multiset(rest, v);
        assert(s == rest.push(last));
        to_multiset_build(rest, last);
        let m = rest.to_multiset();
        if last >= v {
            assert(at_least(m.insert(last), v) =~= at_least(m, v).insert(last));
        } else {
            assert(at_least(m.insert(last), v) =~= at_least(m, v));
        }
    }
}

proof fn lemma_count_of_positive(peaks: Seq<i64>, v: i64)
    requires
        v > 0,
    ensures
        count_at_least(positive(peaks), v) == count_at_least(peaks, v),
    decreases peaks.len(),
{
    if peaks.len() == 0 {
        assert(positive(peaks) == Seq::<i64>::empty());
    } else {
        let rest = peaks.drop_last();
        let last = peaks.last();
        lemma_count_of_positive(rest, v);
        assert(peaks == rest.push(last));
        rest.lemma_filter_push(last, |peak: i64| peak > 0);
        if last > 0 {
            assert(positive(peaks) == positive(rest).push(last));
            assert(positive(peaks).drop_last() == positive(rest));
        }
    }
}

proof fn lemma_count_after_raise(peaks: Seq<i64>, k: int, raised: i64, v: i64)
    requires
        0 <= k < peaks.len(),
        raised >= peaks[k],
    ensures
        count_at_least(peaks.update(k, raised), v) >= count_at_least(peaks, v),
    decreases peaks.len(),
{
    let after = peaks.update(k, raised);
    if k == peaks.len() - 1 {
        assert(after.drop_last() == peaks.drop_last());
    } else {
        assert(after.drop_last() == peaks.drop_last().update(k, raised));
        lemma_count_after_raise(peaks.drop_last(), k, raised, v);
    }
}

proof fn lemma_count_in_descending(s: Seq<i64>, v: i64)
    requires
        descending(s),
    ensures
        count_at_least(s, v) <= s.len(),
        forall|j: int| 0 <= j < count_at_least(s, v) ==> s[j] >= v,
        forall|j: int| count_at_least(s, v) <= j < s.len() ==> s[j] < v,
    decreases s.len(),
{
    if s.len() > 0 {
        let rest = s.drop_last();
        assert(descending(rest)) by {
            assert forall|i: int, j: int| 0 <= i < j < rest.len() implies rest[i] >= rest[j] by {
                assert(rest[i] == s[i] && rest[j] == s[j]);
            }
        }
        lemma_count_in_descending(rest, v);
        let c = count_at_least(rest, v);
        assert forall|j: int| 0 <= j < rest.len() implies rest[j] == s[j] by {}
        if s.last() >= v {
            if c < rest.len() {
                assert(s[c as int] >= s[s.len() - 1]);
            }
        }
    }
}

proof fn lemma_rank_not_lowered(
    peaks: Seq<i64>,
    k: int,
    raised: i64,
    before: Seq<i64>,
    after: Seq<i64>,
    i: int,
)
    requires
        0 <= k < peaks.len(),
        raised >= peaks[k],
        is_ranking(before, peaks),
        is_ranking(after, peaks.update(k, raised)),
        0 <= i < before.len(),
    ensures
        i < after.len(),
        before[i] <= after[i],
{
    let v = before[i];
    assert(v > 0) by {
        to_multiset_contains(before, v);
        to_multiset_contains(positive(peaks), v);
        assert(before.contains(v));
        assert(positive(peaks).contains(v));
        let at = choose|at: int| 0 <= at < positive(peaks).len() && positive(peaks)[at] == v;
        peaks.lemma_filter_pred(|peak: i64| peak > 0, at);
    }
    lemma_count_in_descending(before, v);
    lemma_count_in_descending(after, v);
    lemma_count_by_multiset(before, v);
    lemma_count_by_multiset(positive(peaks), v);
    lemma_count_by_multiset(after, v);
    lemma_count_by_multiset(positive(peaks.update(k, raised)), v);
    lemma_count_of_positive(peaks, v);
    lemma_count_of_positive(peaks.update(k, raised), v);
    lemma_count_after_raise(peaks, k, raised, v);
}

/// Raising a peak lowers no rank: where one peak of a list is replaced by a
/// greater one, the ranking of the new list is at least as long as that of
/// the old one, and at every rank of the old ranking the new one holds a
/// value at least as great.
pub proof fn lemma_raised_peak_lowers_no_rank(
    peaks: Seq<i64>,
    k: int,
    raised: i64,
    before: Seq<i64>,
    after: Seq<i64>,
)
    requires
        0 <= k < peaks.len(),
        raised >= peaks[k],
        is_ranking(before, peaks),
        is_ranking(after, peaks.update(k, raised)),
    ensures
        before.len() <= after.len(),
        forall|i: int| 0 <= i < before.len() ==> before[i] <= after[i],
{
    assert forall|i: int| 0 <= i < before.len() implies before[i] <= after[i] by {
        lemma_rank_not_lowered(peaks, k, raised, before, after, i);
    }
    if before.len() > 0 {
        lemma_rank_not_lowered(peaks, k, raised, before, after, before.len() - 1);
    }
}

/// An object of a stream: when it comes, in microseconds, and the strain it
/// carries.
pub struct StrainObject {
    pub time: i64,
    pub strain: i64,
}

/// The state once every boundary in front of `time` is crossed. A section
/// that opens at a boundary starts from the strain that `seed` gives for the
/// boundary's time.
pub open spec fn caught_up(
    state: StrainState,
    time: i64,
    seed: spec_fn(i64) -> i64,
) -> StrainState
    decreases
            (if time > state.curr_section_end {
                time - state.curr_section_end
            } else {
                0
            }),
{
    if time > state.curr_section_end {
        caught_up(crossed(state, seed(state.curr_section_end)), time, seed)
    } else {
        state
    }
}

/// The state after the objects of a stream, each seen once the boundaries in
/// front of it are crossed.
pub open spec fn run(
    state: StrainState,
    objects: Seq<StrainObject>,
    seed: spec_fn(i64) -> i64,
) -> StrainState
    decreases objects.len(),
{
    if objects.len() == 0 {
        state
    } else {
        updated(
            caught_up(run(state, objects.drop_last(), seed), objects.last().time, seed),
            objects.last().strain,
        )
    }
}

/// The number of sections that a duration reaches into: the duration divided
/// by the section length, rounded up.
pub open spec fn sections_spanned(duration: int) -> int {
    (duration + SECTION_LEN - 1) / (SECTION_LEN as int)
}

/// Whether a state that started at `first` has closed one section for every
/// boundary in front of `time`, and none beyond.
pub open spec fn in_step(state: StrainState, first: int, time: int) -> bool {
    &&& state.curr_section_end == first + state.strain_peaks.len() * SECTION_LEN
    &&& time <= state.curr_section_end
    &&& state.strain_peaks.len() > 0 ==> state.curr_section_end - SECTION_LEN < time
}

proof fn lemma_caught_up_in_step(
    state: StrainState,
    first: int,
    last: int,
    time: i64,
    seed: spec_fn(i64) -> i64,
)
    requires
        last <= time,
        time + SECTION_LEN <= i64::MAX,
        state.curr_section_end == first + state.strain_peaks.len() * SECTION_LEN,
        time <= state.curr_section_end ==> in_step(state, first, last),
    ensures
        in_step(caught_up(state, time, seed), first, time as int),
    decreases
            (if time > state.curr_section_end {
                time - state.curr_section_end
            } else {
                0
            }),
{
    if time > state.curr_section_end {
        let next = crossed(state, seed(state.curr_section_end));
        assert(next.strain_peaks.len() == state.strain_peaks.len() + 1);
        assert((state.strain_peaks.len() + 1) * SECTION_LEN == state.strain_peaks.len()
            * SECTION_LEN + SECTION_LEN) by (nonlinear_arith);
        if time > next.curr_section_end {
            lemma_caught_up_in_step(next, first, last, time, seed);
        } else {
            assert(caught_up(next, time, seed) == next);
        }
    }
}

proof fn lemma_run_in_step(objects: Seq<StrainObject>, seed: spec_fn(i64) -> i64)
    requires
        objects.len() > 0,
        forall|i: int, j: int| 0 <= i < j < objects.len() ==> objects[i].time <= objects[j].time,
        objects.last().time + SECTION_LEN <= i64::MAX,
    ensures
        in_step(
            run(started_at(objects[0].time), objects, seed),
            objects[0].time as int,
            objects.last().time as int,
        ),
    decreases objects.len(),
{
    let first = objects[0].time;
    let before = run(started_at(first), objects.drop_last(), seed);
    if objects.len() == 1 {
        assert(before == started_at(first));
        lemma_caught_up_in_step(before, first as int, first as int, first, seed);
    } else {
        assert(objects.drop_last()[0] == objects[0]);
        assert(objects.drop_last().last() == objects[objects.len() - 2]);
        lemma_run_in_step(objects.drop_last(), seed);
        lemma_caught_up_in_step(
            before,
            first as int,
            objects[objects.len() - 2].time as int,
            objects.last().time,
            seed,
        );
    }
}

/// A stream that spans a duration closes one section for each section length
/// that the duration reaches into, and the open section adds one peak at the
/// end: the objects' times never decreasing from the first to the last, the
/// closed peaks number the duration between the two divided by the section
/// length, rounded up.
pub proof fn lemma_section_peak_count(objects: Seq<StrainObject>, seed: spec_fn(i64) -> i64)
    requires
        objects.len() > 0,
        forall|i: int, j: int| 0 <= i < j < objects.len() ==> objects[i].time <= objects[j].time,
        objects.last().time + SECTION_LEN <= i64::MAX,
    ensures
        run(started_at(objects[0].time), objects, seed).strain_peaks.len() == sections_spanned(
            objects.last().time - objects[0].time,
        ),
        all_peaks(run(started_at(objects[0].time), objects, seed)).len() == sections_spanned(
            objects.last().time - objects[0].time,
        ) + 1,
{
    lemma_run_in_step(objects, seed);
    let state = run(started_at(objects[0].time), objects, seed);
    let n = state.strain_peaks.len() as int;
    let duration = objects.last().time - objects[0].time;
    assert(duration >= 0);
    assert(duration <= n * SECTION_LEN);
    assert(n > 0 ==> (n - 1) * SECTION_LEN < duration) by (nonlinear_arith)
        requires
            n > 0 ==> n * SECTION_LEN - SECTION_LEN < duration,
    ;
    assert(sections_spanned(duration) == n) by (nonlinear_arith)
        requires
            0 <= duration <= n * SECTION_LEN,
            n > 0 ==> (n - 1) * SECTION_LEN < duration,
            n >= 0,
            SECTION_LEN == 400_000,
            sections_spanned(duration) == (duration + SECTION_LEN - 1) / 400_000,
    ;
}

proof fn lemma_caught_up_keeps_peaks(state: StrainState, time: i64, seed: spec_fn(i64) -> i64)
    ensures
        state.strain_peaks.len() <= caught_up(state, time, seed).strain_peaks.len(),
        caught_up(state, time, seed).strain_peaks.take(state.strain_peaks.len() as int)
            == state.strain_peaks,
    decreases
            (if time > state.curr_section_end {
                time - state.curr_section_end
            } else {
                0
            }),
{
    let len = state.strain_peaks.len() as int;
    if time > state.curr_section_end {
        let next = crossed(state, seed(state.curr_section_end));
        lemma_caught_up_keeps_peaks(next, time, seed);
        let end = caught_up(next, time, seed);
        assert(end.strain_peaks.take(len + 1) == next.strain_peaks);
        assert(end.strain_peaks.take(len) == end.strain_peaks.take(len + 1).take(len));
        assert(next.strain_peaks.take(len) == state.strain_peaks);
    } else {
        assert(state.strain_peaks.take(len) == state.strain_peaks);
    }
}

/// The closed peaks only grow: whatever objects a state sees, the peaks it
/// had closed before stay where they are and as they are, and new ones come
/// behind them.
pub proof fn lemma_closed_peaks_are_kept(
    state: StrainState,
    objects: Seq<StrainObject>,
    seed: spec_fn(i64) -> i64,
)
    ensures
        state.strain_peaks.len() <= run(state, objects, seed).strain_peaks.len(),
        run(state, objects, seed).strain_peaks.take(state.strain_peaks.len() as int)
            == state.strain_peaks,
    decreases objects.len(),
{
    let len = state.strain_peaks.len() as int;
    if objects.len() == 0 {
        assert(state.strain_peaks.take(len) == state.strain_peaks);
    } else {
        let before = run(state, objects.drop_last(), seed);
        lemma_closed_peaks_are_kept(state, objects.drop_last(), seed);
        lemma_caught_up_keeps_peaks(before, objects.last().time, seed);
        let after = run(state, objects, seed);
        let mid = before.strain_peaks.len() as int;
        assert(after.strain_peaks.take(len) == after.strain_peaks.take(mid).take(len));
    }
}

/// A [`StrainSkill`] together with the strain that decays from object to
/// object.
#[derive(Clone)]
pub struct StrainDecaySkill {
    pub inner: StrainSkill,
    pub curr_strain: i64,
}

impl Default for StrainDecaySkill {
    fn default() -> (skill: Self)
        ensures
            skill.inner@ == started_at(0),
            skill.curr_strain == 0,
    {
        StrainDecaySkill { inner: StrainSkill::default(), curr_strain: 0 }
    }
}

impl StrainDecaySkill {
    /// A skill for a map whose first object comes at `first_time`.
    pub fn starting_at(first_time: i64) -> (skill: Self)
        ensures
            skill.inner@ == started_at(first_time),
            skill.curr_strain == 0,
    {
        StrainDecaySkill { inner: StrainSkill::starting_at(first_time), curr_strain: 0 }
    }

    /// Closes the open section's peak.
    pub fn save_curr_peak(&mut self)
        ensures
            final(self).inner@ == (StrainState {
                strain_peaks: old(self).inner@.strain_peaks.push(
                    old(self).inner@.curr_section_peak,
                ),
                ..old(self).inner@
            }),
            final(self).curr_strain == old(self).curr_strain,
    {
        self.inner.save_curr_peak();
    }

    /// Opens a section whose peak so far is `initial_strain`.
    pub fn start_new_section_from(&mut self, initial_strain: i64)
        ensures
            final(self).inner@ == (StrainState {
                curr_section_peak: initial_strain,
                ..old(self).inner@
            }),
            final(self).curr_strain == old(self).curr_strain,
    {
        self.inner.start_new_section_from(initial_strain);
    }

    /// Whether an object at `time` lies beyond the open section.
    pub fn section_ends_before(&self, time: i64) -> (ends: bool)
        ensures
            ends == (time > self.inner@.curr_section_end),
    {
        self.inner.section_ends_before(time)
    }

    /// Crosses the boundary at the end of the open section.
    pub fn on_section_boundary(&mut self, initial_strain: i64)
        ensures
            final(self).inner@ == crossed(old(self).inner@, initial_strain),
            final(self).curr_strain == old(self).curr_strain,
    {
        self.inner.on_section_boundary(initial_strain);
    }

    /// Sees an object that leaves the decayed strain at `strain`.
    pub fn update(&mut self, strain: i64)
        ensures
            final(self).inner@ == updated(old(self).inner@, strain),
            final(self).curr_strain == strain,
    {
        self.curr_strain = strain;
        self.inner.update(strain);
    }

    /// All peaks, that of the open section last.
    pub fn get_curr_strain_peaks(self) -> (peaks: Vec<i64>)
        ensures
            peaks@ == all_peaks(self.inner@),
    {
        self.inner.get_curr_strain_peaks()
    }

    /// The peaks that count towards the difficulty, from the greatest down.
    pub fn ranked_peaks(self) -> (ranked: Vec<i64>)
        ensures
            is_ranking(ranked@, all_peaks(self.inner@)),
    {
        self.inner.ranked_peaks()
    }
}

} // verus!
