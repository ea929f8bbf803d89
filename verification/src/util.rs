use vstd::prelude::*;

verus! {

/// Evenly spaced values between `start` and `end`.
///
/// The first value is `start` itself and the last one is `end` itself, so no
/// rounding error creeps into the end points; every value in between is
/// produced by `interpolate(start, end, f, count - 1)` for its position `f`,
/// in increasing order of `f`.
///
/// With `count == 1` the two end points are still both yielded.
pub fn linspace<V: Copy, F: Fn(V, V, usize, usize) -> V>(
    start: V,
    end: V,
    count: usize,
    interpolate: F,
) -> (points: Vec<V>)
    requires
        count >= 1,
        forall|f: usize|
            1 <= f < count - 1 ==> #[trigger] call_requires(
                interpolate,
                (start, end, f, (count - 1) as usize),
            ),
    ensures
        count == 1 ==> points@ == seq![start, end],
        count >= 2 ==> points.len() == count,
        points[0] == start,
        points[points.len() - 1] == end,
        forall|f: int|
            1 <= f < count - 1 ==> call_ensures(
                interpolate,
                (start, end, f as usize, (count - 1) as usize),
                #[trigger] points[f],
            ),
{
    let mut points: Vec<V> = Vec::new();
    points.push(start);
    let last: usize = count - 1;
    let mut f: usize = 1;
    while f < last
        invariant
            1 <= f,
            (last >= 1 && f <= last) || (last == 0 && f == 1),
            last == count - 1,
            points.len() == f,
            points[0] == start,
            forall|g: usize|
                1 <= g < count - 1 ==> #[trigger] call_requires(
                    interpolate,
                    (start, end, g, (count - 1) as usize),
                ),
            forall|g: int|
                1 <= g < f ==> call_ensures(
                    interpolate,
                    (start, end, g as usize, (count - 1) as usize),
                    #[trigger] points[g],
                ),
        decreases last - f,
    {
        let p = interpolate(start, end, f, last);
        points.push(p);
        f = f + 1;
    }
    points.push(end);
    proof {
        if count == 1 {
            assert(points@ =~= seq![start, end]);
        }
    }
    points
}

} // verus!
