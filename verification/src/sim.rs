//! The search driver: one simulator per worker.  Each iteration samples a
//! candidate step sequence, filters it by its loose simpleness index, and
//! prepares a verified, minified representative for the record store.
//!
//! The caller runs the loop, holds the shared store's lock around its reads
//! and writes, and polls the cancellation flag between iterations.

use vstd::prelude::*;
use crate::{Point, wf_steps, sum_x, sum_y, spec_size_of_steps, size_of_steps, MIN_STEPS,
    MAX_STEPS};
use crate::rng::{Rng, wy_step, wy_mix};
use crate::walker::{Walker, spec_si, spec_has_collinear, spec_minify, lemma_wf_unfold,
    lemma_minify_preserves_si, lemma_minify_noncollinear};
use crate::recorder::lemma_size_in_range_bound;

verus! {

/// How far each sampled 32-bit value is shifted right, clamping step
/// components so that accumulated 64-bit arithmetic cannot overflow.
pub const SHIFTS: u32 = 16;

/// The generator state after `k` advances.
pub open spec fn wy_iter(s: u64, k: nat) -> u64
    decreases k,
{
    if k == 0 {
        s
    } else {
        wy_step(wy_iter(s, (k - 1) as nat))
    }
}

/// The step component one draw yields: the low 32 bits of the mixed output,
/// shifted right arithmetically by `SHIFTS`, so a value in [-32768, 32767].
pub open spec fn sample_of(s: u64) -> i32 {
    (((wy_mix(s) & 0xffff_ffff) as u32) as i32) >> 16u32
}

/// One search worker: its generator and its walker.
pub struct Simulator {
    rng: Rng,
    walker: Walker,
    minify: bool,
}

impl Simulator {
    pub closed spec fn wf(self) -> bool {
        self.walker.wf()
    }

    pub closed spec fn sim_n(self) -> nat {
        self.walker.steps_view().len()
    }

    pub closed spec fn spec_closed(self) -> bool {
        self.walker.spec_closed()
    }

    pub closed spec fn spec_minify_mode(self) -> bool {
        self.minify
    }

    pub closed spec fn steps_view(self) -> Seq<Point<i32>> {
        self.walker.steps_view()
    }

    /// The generator's current state.
    pub closed spec fn rng_state(self) -> u64 {
        self.rng.state
    }

    pub fn new(n: usize, closed: bool, minify: bool, seed: u64) -> (s: Simulator)
        requires
            MIN_STEPS <= n <= MAX_STEPS,
        ensures
            s.wf(),
            s.sim_n() == n,
            s.spec_closed() == closed,
            s.spec_minify_mode() == minify,
    {
        Simulator { rng: Rng::new(seed), walker: Walker::new(n, closed), minify }
    }

    /// Whether this worker runs in minify-more mode.
    pub fn minify_mode(&self) -> (r: bool)
        ensures
            r == self.spec_minify_mode(),
    {
        self.minify
    }

    /// A borrow of the current candidate steps, for insertion.
    pub fn steps(&self) -> (r: &Vec<Point<i32>>)
        ensures
            r@ == self.steps_view(),
    {
        self.walker.steps()
    }

    /// Draw one clamped step component.
    fn sample_component(&mut self) -> (c: i32)
        ensures
            -0x8000 <= c <= 0x7fff,
            final(self).walker == old(self).walker,
            final(self).minify == old(self).minify,
            final(self).rng.state == wy_step(old(self).rng.state),
            c == sample_of(final(self).rng.state),
    {
        let v = self.rng.gen();
        let low = v & 0xffff_ffff;
        proof {
            assert(v & 0xffff_ffff <= 0xffff_ffff) by (bit_vector);
        }
        let w = (low as u32) as i32;
        let c = w >> SHIFTS;
        proof {
            assert(-0x8000 <= (w >> 16u32) <= 0x7fff) by (bit_vector);
        }
        c
    }

    /// Sample one iteration's candidate: fresh clamped components drawn from
    /// the generator, and in closed mode a final step that cancels the rest,
    /// then the candidate's loose simpleness index.  The drawn components
    /// are pinned to the generator state: component `2i` and `2i + 1` of the
    /// candidate come from the `2i + 1`-st and `2i + 2`-nd advances.
    pub fn prepare(&mut self) -> (si: u32)
        requires
            old(self).wf(),
        ensures
            final(self).wf(),
            final(self).sim_n() == old(self).sim_n(),
            final(self).spec_closed() == old(self).spec_closed(),
            final(self).spec_minify_mode() == old(self).spec_minify_mode(),
            si == spec_si(final(self).steps_view(), false, final(self).spec_closed()),
            ({
                let s0 = old(self).rng_state();
                let m: int = if old(self).spec_closed() {
                    old(self).sim_n() - 1
                } else {
                    old(self).sim_n() as int
                };
                &&& final(self).rng_state() == wy_iter(s0, (2 * m) as nat)
                &&& forall|i: int|
                    0 <= i < m ==> (#[trigger] final(self).steps_view()[i]).x == sample_of(
                        wy_iter(s0, (2 * i + 1) as nat),
                    ) && final(self).steps_view()[i].y == sample_of(
                        wy_iter(s0, (2 * i + 2) as nat),
                    )
                &&& forall|i: int|
                    0 <= i < m ==> -0x8000 <= (#[trigger] final(self).steps_view()[i]).x
                        <= 0x7fff && -0x8000 <= final(self).steps_view()[i].y <= 0x7fff
                &&& (old(self).spec_closed() ==> sum_x(final(self).steps_view()) == 0 && sum_y(
                    final(self).steps_view(),
                ) == 0)
            }),
    {
        proof {
            lemma_wf_unfold(self.walker);
        }
        let ghost s0 = self.rng.state;
        let n = self.walker.steps().len();
        let mut v: Vec<Point<i32>> = Vec::new();
        if self.walker.is_closed() {
            let mut sx: i32 = 0;
            let mut sy: i32 = 0;
            let mut i: usize = 0;
            proof {
                assert(v@.take(0) =~= Seq::<Point<i32>>::empty());
            }
            while i < n - 1
                invariant
                    i <= n - 1,
                    3 <= n <= MAX_STEPS,
                    v@.len() == i,
                    s0 == old(self).rng_state(),
                    self.rng.state == wy_iter(s0, (2 * i) as nat),
                    forall|k: int|
                        0 <= k < i ==> (#[trigger] v@[k]).x == sample_of(
                            wy_iter(s0, (2 * k + 1) as nat),
                        ) && v@[k].y == sample_of(wy_iter(s0, (2 * k + 2) as nat)),
                    forall|k: int|
                        0 <= k < i ==> -0x8000 <= (#[trigger] v@[k]).x <= 0x7fff && -0x8000
                            <= v@[k].y <= 0x7fff,
                    sx == sum_x(v@.take(i as int)),
                    sy == sum_y(v@.take(i as int)),
                    -(i as int) * 0x8000 <= sx <= (i as int) * 0x8000,
                    -(i as int) * 0x8000 <= sy <= (i as int) * 0x8000,
                    self.wf(),
                    self.sim_n() == n,
                    self.spec_closed() == old(self).spec_closed(),
                    self.minify == old(self).minify,
                decreases n - 1 - i,
            {
                let x = self.sample_component();
                let y = self.sample_component();
                let ghost vp = v@;
                proof {
                    assert(wy_iter(s0, (2 * i + 1) as nat) == wy_step(
                        wy_iter(s0, (2 * i) as nat),
                    ));
                    assert(wy_iter(s0, (2 * i + 2) as nat) == wy_step(
                        wy_iter(s0, (2 * i + 1) as nat),
                    ));
                    assert(vp.take(i as int) =~= vp);
                }
                v.push(Point { x, y });
                proof {
                    assert(v@.take(i as int) =~= vp);
                    crate::lemma_sum_take_succ(v@, i as int);
                }
                sx = sx + x;
                sy = sy + y;
                i = i + 1;
            }
            proof {
                assert(v@.take(n - 1) =~= v@);
            }
            let ghost vp = v@;
            proof {
                assert(vp.take(n - 1) =~= vp);
            }
            v.push(Point { x: -sx, y: -sy });
            proof {
                assert(v@.take(n - 1) =~= vp);
                crate::lemma_sum_take_succ(v@, n - 1);
                assert(v@.take(n as int) =~= v@);
                assert(sum_x(v@) == 0 && sum_y(v@) == 0);
                assert(wf_steps(v@));
            }
            self.walker.load_steps(&v);
        } else {
            let mut i: usize = 0;
            while i < n
                invariant
                    i <= n,
                    3 <= n <= MAX_STEPS,
                    v@.len() == i,
                    s0 == old(self).rng_state(),
                    self.rng.state == wy_iter(s0, (2 * i) as nat),
                    forall|k: int|
                        0 <= k < i ==> (#[trigger] v@[k]).x == sample_of(
                            wy_iter(s0, (2 * k + 1) as nat),
                        ) && v@[k].y == sample_of(wy_iter(s0, (2 * k + 2) as nat)),
                    forall|k: int|
                        0 <= k < i ==> -0x8000 <= (#[trigger] v@[k]).x <= 0x7fff && -0x8000
                            <= v@[k].y <= 0x7fff,
                    self.wf(),
                    self.sim_n() == n,
                    !self.spec_closed(),
                    self.spec_closed() == old(self).spec_closed(),
                    self.minify == old(self).minify,
                decreases n - i,
            {
                let x = self.sample_component();
                let y = self.sample_component();
                proof {
                    assert(wy_iter(s0, (2 * i + 1) as nat) == wy_step(
                        wy_iter(s0, (2 * i) as nat),
                    ));
                    assert(wy_iter(s0, (2 * i + 2) as nat) == wy_step(
                        wy_iter(s0, (2 * i + 1) as nat),
                    ));
                }
                v.push(Point { x, y });
                i = i + 1;
            }
            proof {
                assert(wf_steps(v@));
            }
            self.walker.load_steps(&v);
        }
        self.walker.simpleness_index(false)
    }

    /// First-seen mode: when the catalogue lacks this SI, re-verify the
    /// candidate under the strict predicate, reject collinear candidates,
    /// and minify.  On success the candidate held by the walker is a valid
    /// representative: non-collinear, of strict SI `si`, minified.
    pub fn confirm_first(&mut self, si: u32) -> (r: bool)
        requires
            old(self).wf(),
        ensures
            final(self).wf(),
            final(self).sim_n() == old(self).sim_n(),
            final(self).spec_closed() == old(self).spec_closed(),
            final(self).spec_minify_mode() == old(self).spec_minify_mode(),
            r == (spec_si(old(self).steps_view(), true, old(self).spec_closed()) == si
                && !spec_has_collinear(old(self).steps_view())),
            r ==> final(self).steps_view() == spec_minify(
                old(self).steps_view(),
                si,
                old(self).spec_closed(),
            ),
            !r ==> final(self).steps_view() == old(self).steps_view(),
            r ==> spec_si(final(self).steps_view(), true, final(self).spec_closed()) == si
                && !spec_has_collinear(final(self).steps_view()) && (final(self).spec_closed()
                ==> sum_x(final(self).steps_view()) == 0 && sum_y(final(self).steps_view())
                == 0),
    {
        let strict = self.walker.simpleness_index(true);
        if strict != si {
            return false;
        }
        proof {
            lemma_wf_unfold(self.walker);
        }
        if self.walker.has_collinear_steps() {
            return false;
        }
        let ghost pre = self.walker.steps_view();
        self.walker.minify_steps(si);
        proof {
            lemma_minify_preserves_si(pre, si, self.walker.spec_closed());
            lemma_minify_noncollinear(pre, si, self.walker.spec_closed());
            lemma_wf_unfold(self.walker);
        }
        true
    }

    /// Minify-more mode: always minify, then re-verify the strict SI and
    /// reject collinear results.  The walker always ends up holding the
    /// minified candidate; the call yields its size exactly when the
    /// minified candidate has strict simpleness index `si` and is
    /// non-collinear.
    pub fn confirm_better(&mut self, si: u32) -> (r: Option<u64>)
        requires
            old(self).wf(),
        ensures
            final(self).wf(),
            final(self).sim_n() == old(self).sim_n(),
            final(self).spec_closed() == old(self).spec_closed(),
            final(self).spec_minify_mode() == old(self).spec_minify_mode(),
            final(self).steps_view() == spec_minify(
                old(self).steps_view(),
                si,
                old(self).spec_closed(),
            ),
            (r is Some) == (spec_si(final(self).steps_view(), true, final(self).spec_closed())
                == si && !spec_has_collinear(final(self).steps_view())),
            match r {
                Option::Some(size) => {
                    &&& size == spec_size_of_steps(final(self).steps_view())
                    &&& (final(self).spec_closed() ==> sum_x(final(self).steps_view()) == 0
                        && sum_y(final(self).steps_view()) == 0)
                },
                Option::None => true,
            },
    {
        self.walker.minify_steps(si);
        let strict = self.walker.simpleness_index(true);
        if strict != si {
            return Option::None;
        }
        proof {
            lemma_wf_unfold(self.walker);
        }
        if self.walker.has_collinear_steps() {
            return Option::None;
        }
        proof {
            lemma_size_in_range_bound(self.walker.steps_view());
        }
        let size = size_of_steps(self.walker.steps());
        Option::Some(size)
    }
}

} // verus!
