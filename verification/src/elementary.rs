//! The elementary functions (sine, cosine, arc tangent, arc cosine) are
//! not computed here: callers bring them.  Nothing is asked of them but an
//! answer for every argument.  Where more is known of them, more is known
//! of the results: results are determined if the functions have one value
//! for each argument, and finite if they are bounded as the true functions
//! are.
use crate::bounds::within;
use crate::single::Single;
use vstd::prelude::*;

verus! {

/// Whether `f` has one value for each argument.
pub open spec fn single_valued<F: Fn(Single) -> Single>(f: F) -> bool {
    forall|x: Single, y1: Single, y2: Single|
        #[trigger] f.ensures((x,), y1) && #[trigger] f.ensures((x,), y2) ==> y1 == y2
}

/// Whether `f` has one value for each pair of arguments.
pub open spec fn single_valued_of_two<F: Fn(Single, Single) -> Single>(f: F) -> bool {
    forall|y: Single, x: Single, r1: Single, r2: Single|
        #[trigger] f.ensures((y, x), r1) && #[trigger] f.ensures((y, x), r2) ==> r1 == r2
}

/// Whether `f` is bounded as a sine or a cosine is: its value at a finite
/// argument is at most one in magnitude.
pub open spec fn bounded_by_one<F: Fn(Single) -> Single>(f: F) -> bool {
    forall|x: Single, y: Single| x.finite() && #[trigger] f.ensures((x,), y) ==> within(y, 149)
}

/// Whether `f` is bounded as an arc tangent is: its value at finite
/// arguments is at most four in magnitude.
pub open spec fn bounded_by_four<F: Fn(Single, Single) -> Single>(f: F) -> bool {
    forall|y: Single, x: Single, r: Single|
        y.finite() && x.finite() && #[trigger] f.ensures((y, x), r) ==> within(r, 151)
}

} // verus!
