//! Math utilities on integers, and the easing-curve names whose
//! floating-point evaluation is left to the caller.

use vstd::prelude::*;

verus! {

/// What [`approach`] returns: `x` moved by `amount` towards `y`, never past
/// it.
pub open spec fn approach_spec(x: int, y: int, amount: int) -> int {
    if x < y {
        if x + amount < y {
            x + amount
        } else {
            y
        }
    } else {
        if x - amount > y {
            x - amount
        } else {
            y
        }
    }
}

/// Moves `x` by `amount` towards `y`, stopping at `y`.
pub fn approach(x: i64, y: i64, amount: i64) -> (r: i64)
    requires
        i64::MIN <= x + amount <= i64::MAX,
        i64::MIN <= x - amount <= i64::MAX,
    ensures
        r == approach_spec(x as int, y as int, amount as int),
{
    if x < y {
        let stepped = x + amount;
        if stepped < y {
            stepped
        } else {
            y
        }
    } else {
        let stepped = x - amount;
        if stepped > y {
            stepped
        } else {
            y
        }
    }
}

/// The easing curves: how an animation's progress in `[0, 1]` is remapped.
/// Evaluating a curve works on floating-point numbers and is the caller's
/// affair; the names are shared vocabulary.
pub enum Tween {
    SineIn,
    SineOut,
    SineInOut,
    QuadIn,
    QuadOut,
    QuadInOut,
    CubicIn,
    CubicOut,
    CubicInOut,
    QuartIn,
    QuartOut,
    QuartInOut,
    QuintIn,
    QuintOut,
    QuintInOut,
    ExpoIn,
    ExpoOut,
    ExpoInOut,
    CircIn,
    CircOut,
    CircInOut,
    BackIn,
    BackOut,
    BackInOut,
    ElasticIn,
    ElasticOut,
    ElasticInOut,
    BounceIn,
    BounceOut,
    BounceInOut,
}

} // verus!
