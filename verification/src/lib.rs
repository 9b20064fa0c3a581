//! A Monte-Carlo search engine core for an integer-geometry problem over
//! closed or open polygonal walks.
//!
//! A walk is an ordered sequence of `n >= 3` two-dimensional integer steps.
//! Its simpleness index (SI) counts how many orderings of the steps produce a
//! non-self-intersecting polyline.  The engine samples random step sequences,
//! computes their SI, and keeps a catalogue of one representative step
//! sequence per observed SI value, shrinking representatives to a canonical
//! minimal form.

use vstd::prelude::*;

pub mod geom;
pub mod perms;
pub mod walker;
pub mod parser;
pub mod recorder;
pub mod rng;
pub mod sim;
pub mod sort;

verus! {

/// A two-dimensional point, or a displacement vector.
#[derive(Clone, Copy, Debug, PartialEq, Eq, Structural)]
pub struct Point<T> {
    pub x: T,
    pub y: T,
}

impl View for Point<i32> {
    type V = (int, int);

    open spec fn view(&self) -> (int, int) {
        (self.x as int, self.y as int)
    }
}

impl View for Point<i64> {
    type V = (int, int);

    open spec fn view(&self) -> (int, int) {
        (self.x as int, self.y as int)
    }
}

/// Largest magnitude a step component may have.  With at most `MAX_STEPS`
/// steps this bound keeps every walk vertex below `12 * 2^25 < 2^29`, so the
/// 64-bit cross products of the geometry kernel cannot overflow.
pub const MAX_COORD: i32 = 0x200_0000;

/// Smallest accepted walk length.
pub const MIN_STEPS: usize = 3;

/// Largest accepted walk length.  The simpleness index of a walk of length
/// `n` can reach `n!`, and `12!` is the largest factorial below `u32::MAX`.
pub const MAX_STEPS: usize = 12;

/// Every step component bounded by `MAX_COORD`.
pub open spec fn steps_bounded(s: Seq<Point<i32>>) -> bool {
    forall|i: int|
        0 <= i < s.len() ==> -MAX_COORD <= (#[trigger] s[i]).x <= MAX_COORD && -MAX_COORD
            <= s[i].y <= MAX_COORD
}

/// A step sequence the engine can work on: length within range and every
/// component bounded by `MAX_COORD`.
pub open spec fn wf_steps(s: Seq<Point<i32>>) -> bool {
    &&& MIN_STEPS <= s.len() <= MAX_STEPS
    &&& steps_bounded(s)
}

/// Sum of the x components of a step sequence.
pub open spec fn sum_x(s: Seq<Point<i32>>) -> int
    decreases s.len(),
{
    if s.len() == 0 {
        0
    } else {
        sum_x(s.drop_last()) + s.last().x
    }
}

/// Sum of the y components of a step sequence.
pub open spec fn sum_y(s: Seq<Point<i32>>) -> int
    decreases s.len(),
{
    if s.len() == 0 {
        0
    } else {
        sum_y(s.drop_last()) + s.last().y
    }
}

/// The size (minimality measure) of a step sequence: the sum over all steps
/// of the squared component magnitudes.  Smaller sequences are considered
/// better representatives.
pub open spec fn spec_size_of_steps(s: Seq<Point<i32>>) -> nat
    decreases s.len(),
{
    if s.len() == 0 {
        0
    } else {
        spec_size_of_steps(s.drop_last()) + (s.last().x * s.last().x + s.last().y
            * s.last().y) as nat
    }
}

pub proof fn lemma_sum_take_succ(s: Seq<Point<i32>>, k: int)
    requires
        0 <= k < s.len(),
    ensures
        sum_x(s.take(k + 1)) == sum_x(s.take(k)) + s[k].x,
        sum_y(s.take(k + 1)) == sum_y(s.take(k)) + s[k].y,
{
    assert(s.take(k + 1).drop_last() =~= s.take(k));
    assert(s.take(k + 1).last() == s[k]);
}

pub proof fn lemma_size_take_succ(s: Seq<Point<i32>>, k: int)
    requires
        0 <= k < s.len(),
    ensures
        spec_size_of_steps(s.take(k + 1)) == spec_size_of_steps(s.take(k)) + (s[k].x * s[k].x
            + s[k].y * s[k].y) as nat,
{
    assert(s.take(k + 1).drop_last() =~= s.take(k));
    assert(s.take(k + 1).last() == s[k]);
}

pub proof fn lemma_size_take_le(s: Seq<Point<i32>>, k: int)
    requires
        0 <= k <= s.len(),
    ensures
        spec_size_of_steps(s.take(k)) <= spec_size_of_steps(s),
    decreases s.len() - k,
{
    if k == s.len() {
        assert(s.take(k) =~= s);
    } else {
        lemma_size_take_succ(s, k);
        lemma_size_take_le(s, k + 1);
        assert(s[k].x * s[k].x >= 0) by (nonlinear_arith);
        assert(s[k].y * s[k].y >= 0) by (nonlinear_arith);
    }
}

/// The size of a step sequence, as stored in the catalogue.
pub fn size_of_steps(steps: &Vec<Point<i32>>) -> (r: u64)
    requires
        spec_size_of_steps(steps@) <= u64::MAX,
    ensures
        r == spec_size_of_steps(steps@),
{
    let mut sum: u64 = 0;
    let mut k: usize = 0;
    proof {
        assert(steps@.take(0) =~= Seq::<Point<i32>>::empty());
    }
    while k < steps.len()
        invariant
            0 <= k <= steps@.len(),
            sum == spec_size_of_steps(steps@.take(k as int)),
            spec_size_of_steps(steps@) <= u64::MAX,
        decreases steps@.len() - k,
    {
        let x = steps[k].x as i64;
        let y = steps[k].y as i64;
        proof {
            assert(x * x >= 0 && x * x <= 0x4000_0000_0000_0000) by (nonlinear_arith)
                requires
                    -0x8000_0000 <= x <= 0x8000_0000,
            ;
            assert(y * y >= 0 && y * y <= 0x4000_0000_0000_0000) by (nonlinear_arith)
                requires
                    -0x8000_0000 <= y <= 0x8000_0000,
            ;
            lemma_size_take_succ(steps@, k as int);
            lemma_size_take_le(steps@, k as int + 1);
        }
        let term = (x * x) as u64 + (y * y) as u64;
        sum = sum + term;
        k = k + 1;
    }
    proof {
        assert(steps@.take(steps@.len() as int) =~= steps@);
    }
    sum
}

} // verus!
