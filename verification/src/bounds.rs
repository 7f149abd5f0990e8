//! Boundary-mapping helpers: hard clamp, single-bounce reflection, and
//! periodic wrap, used to keep scalar quantities inside an interval.

use vstd::prelude::*;
use vstd::std_specs::cmp::PartialOrdIs;
use vstd::std_specs::cmp::PartialOrdSpec;
use vstd::std_specs::ops::AddSpec;
use vstd::std_specs::ops::SubSpec;

verus! {

/// What `bound` returns: `min` below the interval, `max` above it, `x` inside.
pub open spec fn spec_bound<T: PartialOrd>(x: T, min: T, max: T) -> T {
    if x.is_lt(&min) {
        min
    } else if x.is_gt(&max) {
        max
    } else {
        x
    }
}

/// Hard clamp of `x` into `[min, max]`.
pub fn bound<T: PartialOrd + Copy>(x: T, min: T, max: T) -> (r: T)
    ensures
        T::obeys_partial_cmp_spec() ==> r == spec_bound(x, min, max),
        r == x || r == min || r == max,
{
    if x < min {
        min
    } else if x > max {
        max
    } else {
        x
    }
}

/// What `bound_reflect` returns: `x` mirrored once at whichever end of
/// `[min, max]` it overshot, `max - (x - max)` above and `min + (min - x)`
/// below. A single bounce only: the overshoot must not exceed `max - min`
/// for the result to land inside the interval.
pub open spec fn spec_bound_reflect<T: PartialOrd + core::ops::Add<Output = T> + core::ops::Sub<Output = T>>(
    x: T,
    min: T,
    max: T,
) -> T {
    if x.is_gt(&max) {
        max.sub_spec(x.sub_spec(max))
    } else if x.is_lt(&min) {
        min.add_spec(min.sub_spec(x))
    } else {
        x
    }
}

/// Reflect `x` once at the boundary of `[min, max]` it overshot.
pub fn bound_reflect<T: PartialOrd + core::ops::Add<Output = T> + core::ops::Sub<Output = T> + Copy>(
    x: T,
    min: T,
    max: T,
) -> (r: T)
    requires
        T::obeys_partial_cmp_spec(),
        T::obeys_add_spec(),
        T::obeys_sub_spec(),
        x.is_gt(&max) ==> x.sub_req(max) && max.sub_req(x.sub_spec(max)),
        !x.is_gt(&max) && x.is_lt(&min) ==> min.sub_req(x) && min.add_req(min.sub_spec(x)),
    ensures
        r == spec_bound_reflect(x, min, max),
{
    if x > max {
        max - (x - max)
    } else if x < min {
        min + (min - x)
    } else {
        x
    }
}

/// One full downward pass: subtract the period `max - min` until the value
/// is no longer above `max`.
pub open spec fn spec_wrap_down(y: int, min: int, max: int) -> int
    recommends
        min < max,
    decreases y - min when min < max
{
    if min < max && y > max {
        spec_wrap_down(y - (max - min), min, max)
    } else {
        y
    }
}

/// One full upward pass: add the period `max - min` until the value is no
/// longer below `min`.
pub open spec fn spec_wrap_up(y: int, min: int, max: int) -> int
    recommends
        min < max,
    decreases max - y when min < max
{
    if min < max && y < min {
        spec_wrap_up(y + (max - min), min, max)
    } else {
        y
    }
}

/// What `wrap` returns: `x` shifted by whole periods of length `max - min`
/// until it lies in `[min, max]`.
pub open spec fn spec_wrap(x: int, min: int, max: int) -> int {
    spec_wrap_up(spec_wrap_down(x, min, max), min, max)
}

/// Wrap `x` periodically into `[min, max]`, correct for arbitrary overshoot.
/// The interval must be non-degenerate, or the walk toward it would make no
/// progress.
pub fn wrap(x: i64, min: i64, max: i64) -> (r: i64)
    requires
        min < max,
        max - min <= i64::MAX,
    ensures
        min <= r <= max,
        r == spec_wrap(x as int, min as int, max as int),
{
    let mut y = x;
    while y > max
        invariant
            min < max,
            max - min <= i64::MAX,
            spec_wrap_down(y as int, min as int, max as int) == spec_wrap_down(
                x as int,
                min as int,
                max as int,
            ),
        decreases y - min,
    {
        y = y - (max - min);
    }
    while y < min
        invariant
            min < max,
            max - min <= i64::MAX,
            y <= max,
            spec_wrap_up(y as int, min as int, max as int) == spec_wrap(
                x as int,
                min as int,
                max as int,
            ),
        decreases max - y,
    {
        y = y + (max - min);
    }
    y
}

} // verus!

