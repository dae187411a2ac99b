use vstd::prelude::*;

verus! {

/// A value that holds from a time on, until the next point takes over.
#[derive(Clone, Copy, Debug)]
pub struct ControlPoint<V> {
    /// In microseconds.
    pub time: i64,
    pub value: V,
}

/// Whether no point is followed by an earlier one.
pub open spec fn sorted_by_time<V>(points: Seq<ControlPoint<V>>) -> bool {
    forall|i: int, j: int| 0 <= i < j < points.len() ==> points[i].time <= points[j].time
}

/// The index of the last point that is not later than `time`, if there is
/// one.
pub open spec fn active_index<V>(points: Seq<ControlPoint<V>>, time: i64) -> Option<int>
    decreases points.len(),
{
    if points.len() == 0 {
        None
    } else if points.last().time <= time {
        Some(points.len() - 1)
    } else {
        active_index(points.drop_last(), time)
    }
}

/// Whether `index` marks a point at which the times turn from not later than
/// `time` to later: the point itself is not later, the next one is, if there
/// is a next one; or, with no index, the first point is later, if there
/// is a first one.
pub open spec fn turns_at<V>(points: Seq<ControlPoint<V>>, time: i64, index: Option<int>) -> bool {
    match index {
        Some(i) => {
            &&& 0 <= i < points.len()
            &&& points[i].time <= time
            &&& i + 1 < points.len() ==> points[i + 1].time > time
        },
        None => points.len() > 0 ==> points[0].time > time,
    }
}

/// In points sorted by time, the times turn only at the last point that is
/// not later than `time`.
pub proof fn lemma_sorted_turns_once<V>(
    points: Seq<ControlPoint<V>>,
    time: i64,
    index: Option<int>,
)
    requires
        sorted_by_time(points),
        turns_at(points, time, index),
    ensures
        index == active_index(points, time),
    decreases points.len(),
{
    if points.len() > 0 {
        let last = points.len() - 1;
        if points.last().time <= time {
            if index is None {
                assert(points[0].time <= points[last].time);
            } else if index->0 < last {
                assert(points[index->0 + 1].time <= points[last].time);
            }
        } else {
            let rest = points.drop_last();
            assert(sorted_by_time(rest)) by {
                assert forall|i: int, j: int| 0 <= i < j < rest.len() implies rest[i].time
                    <= rest[j].time by {
                    assert(rest[i] == points[i] && rest[j] == points[j]);
                }
            }
            if index is Some {
                assert(index->0 < last);
                assert(rest[index->0] == points[index->0]);
                if index->0 + 1 < rest.len() {
                    assert(rest[index->0 + 1] == points[index->0 + 1]);
                }
            } else if rest.len() > 0 {
                assert(rest[0] == points[0]);
            }
            lemma_sorted_turns_once(rest, time, index);
        }
    }
}

/// Finds the point that governs `time`, by its index.
///
/// For points sorted by time this is the last one that is not later than
/// `time`. Points out of order are searched all the same; the index found
/// then still marks a point at which the times turn.
pub fn active_index_at<V>(points: &[ControlPoint<V>], time: i64) -> (index: Option<usize>)
    ensures
        turns_at(
            points@,
            time,
            match index {
                Some(i) => Some(i as int),
                None => None,
            },
        ),
        sorted_by_time(points@) ==> match index {
            Some(i) => Some(i as int),
            None => None,
        } == active_index(points@, time),
{
    let mut lo: usize = 0;
    let mut hi: usize = points.len();
    while lo < hi
        invariant
            lo <= hi <= points.len(),
            lo > 0 ==> points@[lo - 1].time <= time,
            hi < points.len() ==> points@[hi as int].time > time,
        decreases hi - lo,
    {
        let mid = lo + (hi - lo) / 2;
        if points[mid].time <= time {
            lo = mid + 1;
        } else {
            hi = mid;
        }
    }
    let index = if lo == 0 {
        None
    } else {
        Some(lo - 1)
    };
    proof {
        let found: Option<int> = match index {
            Some(i) => Some(i as int),
            None => None,
        };
        if sorted_by_time(points@) {
            lemma_sorted_turns_once(points@, time, found);
        }
    }
    index
}

/// Finds the point that governs `time`: among points sorted by time, the
/// last one that is not later than `time`, and none if all are later.
pub fn active<V>(points: &[ControlPoint<V>], time: i64) -> (point: Option<&ControlPoint<V>>)
    ensures
        match point {
            Some(p) => exists|i: int|
                turns_at(points@, time, Some(i)) && #[trigger] points@[i] == *p,
            None => turns_at(points@, time, None),
        },
        sorted_by_time(points@) ==> match active_index(points@, time) {
            Some(i) => point == Some(&points@[i]),
            None => point is None,
        },
{
    match active_index_at(points, time) {
        Some(i) => Some(&points[i]),
        None => None,
    }
}

/// The value that holds at `time`: that of the governing point, and
/// `default` where no point governs.
pub fn active_value_or<V: Copy>(points: &[ControlPoint<V>], time: i64, default: V) -> (value: V)
    ensures
        (turns_at(points@, time, None) && value == default) || exists|i: int|
            turns_at(points@, time, Some(i)) && value == (#[trigger] points@[i]).value,
        sorted_by_time(points@) ==> value == match active_index(points@, time) {
            Some(i) => points@[i].value,
            None => default,
        },
{
    match active(points, time) {
        Some(point) => point.value,
        None => default,
    }
}

} // verus!
