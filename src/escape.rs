//! The escape-time loop: iterate a map from a starting point until the
//! point escapes or the iteration cap is reached.
use vstd::prelude::*;

verus! {

/// The number of iterations after which a point counts as never escaping.
pub const ITERATION_LIMIT: usize = 1024;

/// Outcome of the escape-time loop.
#[derive(Debug)]
pub enum Escape<T> {
    /// The point had escaped when `iteration` steps had been taken; `z` is
    /// where it was then.
    Escaped { iteration: usize, z: T },
    /// The point had not escaped after the iteration cap.
    Stayed,
}

/// `zs` is an orbit from `z0`: each point is the step of the one before, and
/// none of them but possibly the last has escaped.
pub open spec fn is_orbit<T, E: Fn(T) -> bool, S: Fn(T) -> T>(zs: Seq<T>, z0: T, escaped: E, step: S) -> bool {
    &&& zs.len() >= 1
    &&& zs[0] == z0
    &&& forall|i: int|
        0 <= i < zs.len() - 1 ==> escaped.ensures((#[trigger] zs[i],), false) && step.ensures((zs[i],), zs[i + 1])
}

/// Iterates `step` from `z0` for at most `limit` steps, testing `escaped`
/// before each step. Returns the first iteration at which the point has
/// escaped, with the point, or `Stayed` when none of the `limit` tests
/// found it escaped. The orbit that the result stands for has at most
/// `limit + 1` points: `step` is applied at most `limit` times.
pub fn escape_time<T: Copy, E: Fn(T) -> bool, S: Fn(T) -> T>(z0: T, limit: usize, escaped: &E, step: &S) -> (r: Escape<T>)
    requires
        forall|z: T| escaped.requires((z,)),
        forall|z: T| step.requires((z,)),
    ensures
        match r {
            Escape::Escaped { iteration, z } => iteration < limit && escaped.ensures((z,), true) && exists|zs: Seq<T>|
                zs.len() == iteration + 1 && zs.last() == z && #[trigger] is_orbit(zs, z0, *escaped, *step),
            Escape::Stayed => exists|zs: Seq<T>| zs.len() == limit + 1 && #[trigger] is_orbit(zs, z0, *escaped, *step),
        },
{
    let mut z = z0;
    let mut i: usize = 0;
    let ghost mut zs: Seq<T> = seq![z0];
    while i < limit
        invariant
            forall|z: T| escaped.requires((z,)),
            forall|z: T| step.requires((z,)),
            i <= limit,
            zs.len() == i + 1,
            zs.last() == z,
            is_orbit(zs, z0, *escaped, *step),
        decreases limit - i,
    {
        if escaped(z) {
            return Escape::Escaped { iteration: i, z };
        }
        let next = step(z);
        proof {
            let old_zs = zs;
            zs = zs.push(next);
            assert forall|k: int| 0 <= k < zs.len() - 1 implies escaped.ensures((#[trigger] zs[k],), false) && step.ensures((zs[k],), zs[k + 1]) by {
                if k < old_zs.len() - 1 {
                    assert(zs[k] == old_zs[k]);
                    assert(zs[k + 1] == old_zs[k + 1]);
                }
            }
        }
        z = next;
        i = i + 1;
    }
    Escape::Stayed
}

} // verus!
