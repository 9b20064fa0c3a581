//! The walker: owns a step sequence and decides simpleness, closedness,
//! collinearity and the simpleness index, and shrinks step sequences to a
//! canonical minimal form.

use vstd::prelude::*;
use vstd::set_lib::lemma_set_disjoint_lens;
use crate::{Point, MAX_COORD, MIN_STEPS, MAX_STEPS, wf_steps, steps_bounded, sum_x, sum_y};
use crate::geom::{spec_segments_intersect, segments_intersect, pt_in_range};
use crate::perms::{is_perm, is_partial_perm, apply_perm, perm_exts, perm_exts_below, fact,
    lemma_exts_base, lemma_exts_below_zero, lemma_exts_below_used, lemma_exts_below_step,
    lemma_exts_below_full, lemma_exts_bound, lemma_exts_below_bound, lemma_unused_total,
    lemma_unused_mono, lemma_fact_mono};

verus! {

/// The x coordinate of walk vertex `k`: the sum of the first `k` step
/// x components.
pub open spec fn vert_x(a: Seq<Point<i32>>, k: int) -> int
    decreases k,
{
    if k <= 0 {
        0
    } else {
        vert_x(a, k - 1) + a[k - 1].x
    }
}

/// The y coordinate of walk vertex `k`.
pub open spec fn vert_y(a: Seq<Point<i32>>, k: int) -> int
    decreases k,
{
    if k <= 0 {
        0
    } else {
        vert_y(a, k - 1) + a[k - 1].y
    }
}

/// Walk vertex `k` of the step sequence `a`; vertex 0 is the origin.
pub open spec fn vert(a: Seq<Point<i32>>, k: int) -> (int, int) {
    (vert_x(a, k), vert_y(a, k))
}

/// The first earlier segment the segment ending at vertex `i + 1` must be
/// tested against.  In a closed walk the final segment shares the origin with
/// segment 0, so that comparison is skipped.
pub open spec fn seg_lo(n: int, closed: bool, i: int) -> int {
    if closed && i == n - 1 {
        1
    } else {
        0
    }
}

/// The rows of the segment-pair table up to (excluding) row `upto` hold no
/// intersection: row `i` tests segment `(vert i, vert i+1)` against every
/// earlier non-adjacent segment.
pub open spec fn rows_simple(a: Seq<Point<i32>>, strict: bool, closed: bool, upto: int) -> bool {
    forall|i: int, j: int|
        2 <= i < upto && seg_lo(a.len() as int, closed, i) <= j <= i - 2
            ==> !#[trigger] spec_segments_intersect(
            vert(a, i),
            vert(a, i + 1),
            vert(a, j),
            vert(a, j + 1),
            strict,
        )
}

/// The walk of `a` is simple: no segment meets an earlier non-adjacent one.
pub open spec fn spec_is_simple(a: Seq<Point<i32>>, strict: bool, closed: bool) -> bool {
    rows_simple(a, strict, closed, a.len() as int)
}

/// Two steps are collinear: parallel as vectors, the zero vector counting as
/// parallel to everything.
pub open spec fn spec_has_collinear(a: Seq<Point<i32>>) -> bool {
    exists|i: int, j: int|
        #![trigger a[i], a[j]]
        0 <= i < j < a.len() && a[i].x * a[j].y == a[i].y * a[j].x
}

/// The side condition selecting the orderings whose walk is simple.
pub open spec fn si_cond(s: Seq<Point<i32>>, strict: bool, closed: bool) -> spec_fn(
    Seq<usize>,
) -> bool {
    |p: Seq<usize>| spec_is_simple(apply_perm(p, s), strict, closed)
}

/// The simpleness index of a step sequence: over all orderings of the step
/// positions, the number whose walk is simple.
pub open spec fn spec_si(s: Seq<Point<i32>>, strict: bool, closed: bool) -> nat {
    perm_exts(Seq::<usize>::empty(), s.len(), si_cond(s, strict, closed)).len()
}

pub proof fn lemma_fact12()
    ensures
        fact(12) == 479001600,
{
    assert(fact(0) == 1);
    assert(fact(1) == 1);
    assert(fact(2) == 2);
    assert(fact(3) == 6);
    assert(fact(4) == 24);
    assert(fact(5) == 120);
    assert(fact(6) == 720);
    assert(fact(7) == 5040);
    assert(fact(8) == 40320);
    assert(fact(9) == 362880);
    assert(fact(10) == 3628800);
    assert(fact(11) == 39916800);
    assert(fact(12) == 479001600);
}

proof fn lemma_sum_of_zero(s: Seq<Point<i32>>)
    requires
        forall|i: int| 0 <= i < s.len() ==> (#[trigger] s[i]).x == 0 && s[i].y == 0,
    ensures
        sum_x(s) == 0,
        sum_y(s) == 0,
    decreases s.len(),
{
    if s.len() > 0 {
        lemma_sum_of_zero(s.drop_last());
    }
}

/// The walker: the current step sequence, scratch buffers for the vertex
/// walk and for rearrangements, and the closed flag.
pub struct Walker {
    steps: Vec<Point<i32>>,
    walk: Vec<Point<i64>>,
    arrange: Vec<Point<i32>>,
    closed: bool,
}

impl Walker {
    pub closed spec fn steps_view(self) -> Seq<Point<i32>> {
        self.steps@
    }

    pub closed spec fn spec_closed(self) -> bool {
        self.closed
    }

    /// Well-formed: the steps are in range and, when the walker is in closed
    /// mode, they sum to the origin.
    pub closed spec fn wf(self) -> bool {
        &&& wf_steps(self.steps@)
        &&& (self.closed ==> sum_x(self.steps@) == 0 && sum_y(self.steps@) == 0)
    }

    pub fn new(n: usize, closed: bool) -> (w: Walker)
        requires
            MIN_STEPS <= n <= MAX_STEPS,
        ensures
            w.wf(),
            w.steps_view().len() == n,
            w.spec_closed() == closed,
            forall|i: int| 0 <= i < n ==> (#[trigger] w.steps_view()[i]) == (Point {
                x: 0i32,
                y: 0i32,
            }),
    {
        let mut steps: Vec<Point<i32>> = Vec::new();
        let mut i: usize = 0;
        while i < n
            invariant
                i <= n,
                steps@.len() == i,
                forall|k: int| 0 <= k < i ==> (#[trigger] steps@[k]) == (Point { x: 0i32, y: 0i32 }),
            decreases n - i,
        {
            steps.push(Point { x: 0i32, y: 0i32 });
            i = i + 1;
        }
        proof {
            lemma_sum_of_zero(steps@);
        }
        Walker { steps, walk: Vec::new(), arrange: Vec::new(), closed }
    }

    /// Replace the current steps by a copy of `steps` and recompute the
    /// closed flag from their sum.
    pub fn set_steps(&mut self, steps: &Vec<Point<i32>>)
        requires
            wf_steps(steps@),
        ensures
            final(self).wf(),
            final(self).steps_view() == steps@,
            final(self).spec_closed() == (sum_x(steps@) == 0 && sum_y(steps@) == 0),
    {
        self.steps.clear();
        let n = steps.len();
        let mut i: usize = 0;
        while i < n
            invariant
                i <= n,
                n == steps@.len(),
                self.steps@ =~= steps@.take(i as int),
            decreases n - i,
        {
            self.steps.push(steps[i]);
            i = i + 1;
        }
        proof {
            assert(self.steps@ =~= steps@);
        }
        self.closed = self.is_walk_closed();
    }

    /// Whether the walker is configured for closed walks.
    pub fn is_closed(&self) -> (r: bool)
        ensures
            r == self.spec_closed(),
    {
        self.closed
    }

    /// A borrow of the current steps.
    pub fn steps(&self) -> (r: &Vec<Point<i32>>)
        ensures
            r@ == self.steps_view(),
    {
        &self.steps
    }

    /// The steps sum to the origin.
    pub fn is_walk_closed(&self) -> (r: bool)
        requires
            wf_steps(self.steps_view()),
        ensures
            r == (sum_x(self.steps_view()) == 0 && sum_y(self.steps_view()) == 0),
    {
        let n = self.steps.len();
        let mut sx: i64 = 0;
        let mut sy: i64 = 0;
        let mut i: usize = 0;
        proof {
            assert(self.steps@.take(0) =~= Seq::<Point<i32>>::empty());
        }
        while i < n
            invariant
                i <= n,
                n == self.steps@.len(),
                wf_steps(self.steps@),
                sx == sum_x(self.steps@.take(i as int)),
                sy == sum_y(self.steps@.take(i as int)),
                -(i as int) * (MAX_COORD as int) <= sx <= (i as int) * (MAX_COORD as int),
                -(i as int) * (MAX_COORD as int) <= sy <= (i as int) * (MAX_COORD as int),
            decreases n - i,
        {
            proof {
                crate::lemma_sum_take_succ(self.steps@, i as int);
            }
            sx = sx + self.steps[i].x as i64;
            sy = sy + self.steps[i].y as i64;
            i = i + 1;
        }
        proof {
            assert(self.steps@.take(n as int) =~= self.steps@);
        }
        sx == 0 && sy == 0
    }

    /// Some two steps are collinear (parallel vectors, the zero vector
    /// counting as parallel to everything).
    pub fn has_collinear_steps(&self) -> (r: bool)
        requires
            wf_steps(self.steps_view()),
        ensures
            r == spec_has_collinear(self.steps_view()),
    {
        let n = self.steps.len();
        let mut i: usize = 0;
        while i < n
            invariant
                i <= n,
                n == self.steps@.len(),
                wf_steps(self.steps@),
                forall|a: int, b: int|
                    #![trigger self.steps@[a], self.steps@[b]]
                    0 <= a < b < n && a < i ==> self.steps@[a].x * self.steps@[b].y
                        != self.steps@[a].y * self.steps@[b].x,
            decreases n - i,
        {
            let mut j: usize = i + 1;
            while j < n
                invariant
                    i < j <= n,
                    i < n,
                    n == self.steps@.len(),
                    wf_steps(self.steps@),
                    forall|a: int, b: int|
                        #![trigger self.steps@[a], self.steps@[b]]
                        0 <= a < b < n && a < i ==> self.steps@[a].x * self.steps@[b].y
                            != self.steps@[a].y * self.steps@[b].x,
                    forall|b: int|
                        i < b < j ==> self.steps@[i as int].x * (#[trigger] self.steps@[b]).y
                            != self.steps@[i as int].y * self.steps@[b].x,
                decreases n - j,
            {
                let a = self.steps[i];
                let b = self.steps[j];
                proof {
                    assert(-0x4_0000_0000_0000 <= (a.x as i64) * (b.y as i64)
                        <= 0x4_0000_0000_0000) by (nonlinear_arith)
                        requires
                            -0x200_0000 <= a.x as i64 <= 0x200_0000,
                            -0x200_0000 <= b.y as i64 <= 0x200_0000,
                    ;
                    assert(-0x4_0000_0000_0000 <= (a.y as i64) * (b.x as i64)
                        <= 0x4_0000_0000_0000) by (nonlinear_arith)
                        requires
                            -0x200_0000 <= a.y as i64 <= 0x200_0000,
                            -0x200_0000 <= b.x as i64 <= 0x200_0000,
                    ;
                }
                if (a.x as i64) * (b.y as i64) == (a.y as i64) * (b.x as i64) {
                    return true;
                }
                j = j + 1;
            }
            i = i + 1;
        }
        false
    }
}

impl Walker {
    /// The walk of the current steps is simple, under the chosen predicate.
    pub fn is_walk_simple(&mut self, strict: bool) -> (r: bool)
        requires
            old(self).wf(),
        ensures
            final(self).wf(),
            final(self).steps_view() == old(self).steps_view(),
            final(self).spec_closed() == old(self).spec_closed(),
            r == spec_is_simple(old(self).steps_view(), strict, old(self).spec_closed()),
    {
        walk_is_simple(&self.steps, &mut self.walk, strict, self.closed)
    }

    /// The simpleness index of the current steps: over all orderings of the
    /// step positions, the number whose walk is simple under the chosen
    /// predicate.
    pub fn simpleness_index(&mut self, strict: bool) -> (si: u32)
        requires
            old(self).wf(),
        ensures
            final(self).wf(),
            final(self).steps_view() == old(self).steps_view(),
            final(self).spec_closed() == old(self).spec_closed(),
            si == spec_si(old(self).steps_view(), strict, old(self).spec_closed()),
    {
        let n = self.steps.len();
        let mut used: Vec<bool> = Vec::new();
        let mut i: usize = 0;
        while i < n
            invariant
                i <= n,
                used@.len() == i,
                forall|k: int| 0 <= k < i ==> !(#[trigger] used@[k]),
            decreases n - i,
        {
            used.push(false);
            i = i + 1;
        }
        let mut pre: Vec<usize> = Vec::new();
        proof {
            assert(pre@ =~= Seq::<usize>::empty());
            assert forall|v: usize| v < n implies (used@[v as int] <==> pre@.contains(v)) by {
                if pre@.contains(v) {
                    let w = choose|w: int| 0 <= w < pre@.len() && pre@[w] == v;
                }
            }
        }
        si_rec(&self.steps, self.closed, strict, &mut self.walk, &mut self.arrange, &mut used,
            &mut pre)
    }
}

/// Count the permutations extending `pre` whose rearranged walk is simple.
/// Positions are chosen in increasing order; `used` mirrors the prefix.
fn si_rec(
    steps: &Vec<Point<i32>>,
    closed: bool,
    strict: bool,
    walk: &mut Vec<Point<i64>>,
    arrange: &mut Vec<Point<i32>>,
    used: &mut Vec<bool>,
    pre: &mut Vec<usize>,
) -> (c: u32)
    requires
        wf_steps(steps@),
        old(used)@.len() == steps@.len(),
        is_partial_perm(old(pre)@, steps@.len() as nat),
        forall|v: usize| v < steps@.len() ==> ((#[trigger] old(used)@[v as int]) <==> old(
            pre,
        )@.contains(v)),
    ensures
        final(used)@ == old(used)@,
        final(pre)@ == old(pre)@,
        c == perm_exts(old(pre)@, steps@.len() as nat, si_cond(steps@, strict, closed)).len(),
    decreases steps@.len() - old(pre)@.len(),
{
    let n = steps.len();
    let ghost gn = steps@.len() as nat;
    let ghost cond = si_cond(steps@, strict, closed);
    let ghost pre0 = pre@;
    if pre.len() == n {
        arrange.clear();
        let mut i: usize = 0;
        while i < n
            invariant
                i <= n,
                n == steps@.len(),
                pre@ == pre0,
                pre@.len() == n,
                is_partial_perm(pre@, n as nat),
                arrange@.len() == i,
                forall|k: int| 0 <= k < i ==> (#[trigger] arrange@[k]) == steps@[pre@[k] as int],
            decreases n - i,
        {
            let idx = pre[i];
            arrange.push(steps[idx]);
            i = i + 1;
        }
        proof {
            assert(arrange@ =~= apply_perm(pre@, steps@));
            assert(wf_steps(arrange@));
        }
        let r = walk_is_simple(arrange, walk, strict, closed);
        proof {
            lemma_exts_base(pre0, gn, cond);
        }
        if r {
            1
        } else {
            0
        }
    } else {
        let ghost k = pre0.len() as int;
        let mut c: u32 = 0;
        let mut x: usize = 0;
        proof {
            lemma_exts_below_zero(pre0, gn, cond);
        }
        while x < n
            invariant
                x <= n,
                n == steps@.len(),
                wf_steps(steps@),
                used@.len() == n,
                pre@ == pre0,
                is_partial_perm(pre0, gn),
                pre0.len() < n,
                gn == n as nat,
                k == pre0.len() as int,
                pre0 == old(pre)@,
                used@ == old(used)@,
                cond == si_cond(steps@, strict, closed),
                forall|v: usize| v < n ==> ((#[trigger] used@[v as int]) <==> pre0.contains(v)),
                c == perm_exts_below(pre0, gn, cond, x as int).len(),
            decreases n - x,
        {
            if !used[x] {
                proof {
                    lemma_exts_below_step(pre0, gn, cond, x);
                }
                used[x] = true;
                pre.push(x);
                proof {
                    assert(pre@ == pre0.push(x));
                    assert(pre0.push(x).len() == pre0.len() + 1);
                    assert(pre@.len() == k + 1);
                    assert(pre@[k] == x);
                    assert forall|v: usize| v < n implies ((#[trigger] used@[v as int]) <==> pre@.contains(
                        v,
                    )) by {
                        if v == x {
                            assert(pre@[k] == x);
                            assert(pre@.contains(x));
                        } else {
                            assert(pre0.contains(v) ==> pre@.contains(v)) by {
                                if pre0.contains(v) {
                                    let w = choose|w: int|
                                        0 <= w < pre0.len() && pre0[w] == v;
                                    assert(pre@[w] == v);
                                }
                            }
                            assert(pre@.contains(v) ==> pre0.contains(v)) by {
                                if pre@.contains(v) {
                                    let w = choose|w: int|
                                        0 <= w < pre@.len() && pre@[w] == v;
                                    assert(w < k + 1);
                                    if w < k {
                                        assert(pre0[w] == v);
                                    }
                                }
                            }
                        }
                    }
                }
                let d = si_rec(steps, closed, strict, walk, arrange, used, pre);
                let _ = pre.pop();
                used[x] = false;
                proof {
                    assert(pre@ =~= pre0);
                    assert(used@ =~= old(used)@);
                    // The two halves are disjoint and finite, so the counts add.
                    let a = perm_exts_below(pre0, gn, cond, x as int);
                    let b = perm_exts(pre0.push(x), gn, cond);
                    lemma_exts_below_bound(pre0, gn, cond, x as int);
                    lemma_exts_bound(pre0.push(x), gn, cond);
                    lemma_set_disjoint_lens(a, b);
                    assert(perm_exts_below(pre0, gn, cond, x as int + 1) == a + b);
                    assert(perm_exts_below(pre0, gn, cond, x as int + 1).len() == a.len()
                        + b.len());
                    // No overflow: the count is bounded by a factorial.
                    lemma_exts_below_bound(pre0, gn, cond, x as int + 1);
                    lemma_unused_mono(pre0, x as int + 1, gn as int);
                    lemma_unused_total(pre0, gn);
                    let m = (gn - pre0.len() - 1) as nat;
                    assert(crate::perms::unused_below(pre0, x as int + 1) * fact(m) <= (gn
                        - pre0.len()) * fact(m)) by (nonlinear_arith)
                        requires
                            crate::perms::unused_below(pre0, x as int + 1) <= gn - pre0.len(),
                            fact(m) >= 0,
                    ;
                    assert((gn - pre0.len()) * fact(m) == fact((gn - pre0.len()) as nat));
                    lemma_fact_mono((gn - pre0.len()) as nat, 12);
                    lemma_fact12();
                }
                c = c + d;
            } else {
                proof {
                    lemma_exts_below_used(pre0, gn, cond, x);
                }
            }
            x = x + 1;
        }
        proof {
            lemma_exts_below_full(pre0, gn, cond);
        }
        c
    }
}

/// Integer division by two truncating toward zero, as `/ 2` does on `i32`.
pub open spec fn tdiv2(x: int) -> int {
    if x >= 0 {
        x / 2
    } else {
        -((-x) / 2)
    }
}

pub open spec fn iabs(x: int) -> nat {
    if x >= 0 {
        x as nat
    } else {
        (-x) as nat
    }
}

pub proof fn lemma_tdiv2_facts(c: int)
    ensures
        c - 1 <= 2 * tdiv2(c) <= c + 1,
        2 * iabs(tdiv2(c)) <= iabs(c),
        c != 0 ==> iabs(tdiv2(c)) < iabs(c),
        c >= 0 ==> 0 <= tdiv2(c),
        c <= 0 ==> tdiv2(c) <= 0,
{
    if c >= 0 {
        assert(0 <= c / 2 && c - 1 <= 2 * (c / 2) <= c) by (nonlinear_arith)
            requires
                c >= 0,
        ;
    } else {
        assert(0 <= (-c) / 2 && (-c) - 1 <= 2 * ((-c) / 2) <= -c) by (nonlinear_arith)
            requires
                -c > 0,
        ;
    }
}

/// Every component halved, truncating toward zero.
pub open spec fn spec_halve(s: Seq<Point<i32>>) -> Seq<Point<i32>> {
    Seq::new(
        s.len(),
        |i: int| Point {
            x: tdiv2(s[i].x as int) as i32,
            y: tdiv2(s[i].y as int) as i32,
        },
    )
}

/// Halve every component; in closed mode, subtract the accumulated sum from
/// the last step so the walk stays closed.
pub open spec fn spec_halve_adj(s: Seq<Point<i32>>, closed: bool) -> Seq<Point<i32>> {
    let h = spec_halve(s);
    if closed && s.len() > 0 {
        h.update(
            s.len() - 1,
            Point {
                x: (h.last().x - sum_x(h)) as i32,
                y: (h.last().y - sum_y(h)) as i32,
            },
        )
    } else {
        h
    }
}

/// A halved configuration is kept iff it is non-collinear and its strict
/// simpleness index still equals `si`.
pub open spec fn minify_accept(s: Seq<Point<i32>>, si: u32, closed: bool) -> bool {
    let h = spec_halve_adj(s, closed);
    !spec_has_collinear(h) && spec_si(h, true, closed) == si
}

/// Sum of the component magnitudes of a step sequence.
pub open spec fn abs_mass(s: Seq<Point<i32>>) -> nat
    decreases s.len(),
{
    if s.len() == 0 {
        0
    } else {
        abs_mass(s.drop_last()) + iabs(s.last().x as int) + iabs(s.last().y as int)
    }
}

/// The mass of all steps but the last: the measure that each accepted
/// halving shrinks (the last step absorbs the closing adjustment).
pub open spec fn head_mass(s: Seq<Point<i32>>) -> nat {
    abs_mass(s.take(s.len() - 1))
}

/// The halving loop: keep halving while the result is accepted.
pub open spec fn spec_minify_loop(s: Seq<Point<i32>>, si: u32, closed: bool) -> Seq<Point<i32>>
    decreases head_mass(s),
{
    if 3 <= s.len() && minify_accept(s, si, closed) && head_mass(spec_halve_adj(s, closed))
        < head_mass(s) {
        spec_minify_loop(spec_halve_adj(s, closed), si, closed)
    } else {
        s
    }
}

/// Sum of the signs of a chosen component across the steps.
pub open spec fn spec_sign_sum_x(s: Seq<Point<i32>>) -> int
    decreases s.len(),
{
    if s.len() == 0 {
        0
    } else {
        spec_sign_sum_x(s.drop_last()) + (if s.last().x > 0 {
            1int
        } else if s.last().x < 0 {
            -1int
        } else {
            0int
        })
    }
}

pub open spec fn spec_sign_sum_y(s: Seq<Point<i32>>) -> int
    decreases s.len(),
{
    if s.len() == 0 {
        0
    } else {
        spec_sign_sum_y(s.drop_last()) + (if s.last().y > 0 {
            1int
        } else if s.last().y < 0 {
            -1int
        } else {
            0int
        })
    }
}

/// All x components negated.
pub open spec fn spec_flip_x(s: Seq<Point<i32>>) -> Seq<Point<i32>> {
    Seq::new(s.len(), |i: int| Point { x: (-(s[i].x as int)) as i32, y: s[i].y })
}

/// All y components negated.
pub open spec fn spec_flip_y(s: Seq<Point<i32>>) -> Seq<Point<i32>> {
    Seq::new(s.len(), |i: int| Point { x: s[i].x, y: (-(s[i].y as int)) as i32 })
}

/// What minification produces: the halving loop's result, with all x (and
/// likewise all y) components negated when their signs sum negative.
pub open spec fn spec_minify(s: Seq<Point<i32>>, si: u32, closed: bool) -> Seq<Point<i32>> {
    let m = spec_minify_loop(s, si, closed);
    let m1 = if spec_sign_sum_x(m) < 0 {
        spec_flip_x(m)
    } else {
        m
    };
    if spec_sign_sum_y(m1) < 0 {
        spec_flip_y(m1)
    } else {
        m1
    }
}

/// Halving almost halves the component sums: the truncations add up to at
/// most one per step.
pub proof fn lemma_halve_sum(s: Seq<Point<i32>>)
    ensures
        sum_x(s) - s.len() <= 2 * sum_x(spec_halve(s)) <= sum_x(s) + s.len(),
        sum_y(s) - s.len() <= 2 * sum_y(spec_halve(s)) <= sum_y(s) + s.len(),
    decreases s.len(),
{
    if s.len() > 0 {
        assert(spec_halve(s).drop_last() =~= spec_halve(s.drop_last()));
        lemma_halve_sum(s.drop_last());
        lemma_tdiv2_facts(s.last().x as int);
        lemma_tdiv2_facts(s.last().y as int);
        assert(spec_halve(s).last() == (Point {
            x: tdiv2(s.last().x as int) as i32,
            y: tdiv2(s.last().y as int) as i32,
        }));
    }
}

/// Updating one element changes a sum by the difference of that element.
pub proof fn lemma_sum_update(s: Seq<Point<i32>>, i: int, v: Point<i32>)
    requires
        0 <= i < s.len(),
    ensures
        sum_x(s.update(i, v)) == sum_x(s) - s[i].x + v.x,
        sum_y(s.update(i, v)) == sum_y(s) - s[i].y + v.y,
    decreases s.len(),
{
    if i == s.len() - 1 {
        assert(s.update(i, v).drop_last() =~= s.drop_last());
        assert(s.update(i, v).last() == v);
    } else {
        assert(s.update(i, v).drop_last() =~= s.drop_last().update(i, v));
        assert(s.update(i, v).last() == s.last());
        lemma_sum_update(s.drop_last(), i, v);
    }
}

/// Componentwise bounds give a bound on the sums.
pub proof fn lemma_sum_bounds(s: Seq<Point<i32>>, b: int)
    requires
        b >= 0,
        forall|i: int| 0 <= i < s.len() ==> -b <= (#[trigger] s[i]).x <= b && -b <= s[i].y <= b,
    ensures
        -(s.len() as int) * b <= sum_x(s) <= (s.len() as int) * b,
        -(s.len() as int) * b <= sum_y(s) <= (s.len() as int) * b,
    decreases s.len(),
{
    if s.len() > 0 {
        assert forall|i: int|
            0 <= i < s.drop_last().len() implies -b <= (#[trigger] s.drop_last()[i]).x <= b && -b
            <= s.drop_last()[i].y <= b by {
            assert(s.drop_last()[i] == s[i]);
        }
        lemma_sum_bounds(s.drop_last(), b);
        let l = s.len() as int;
        assert(s.last() == s[l - 1]);
        assert((l - 1) * b + b == l * b && (-(l - 1)) * b - b == (-l) * b) by (nonlinear_arith);
        assert(-(l - 1) * b <= sum_x(s.drop_last()) <= (l - 1) * b);
        assert(-(l - 1) * b <= sum_y(s.drop_last()) <= (l - 1) * b);
    }
}

/// Halving shrinks the mass, strictly as soon as one component is nonzero.
proof fn lemma_mass_halve(u: Seq<Point<i32>>)
    ensures
        abs_mass(spec_halve(u)) <= abs_mass(u),
        (exists|i: int| 0 <= i < u.len() && ((#[trigger] u[i]).x != 0 || u[i].y != 0))
            ==> abs_mass(spec_halve(u)) < abs_mass(u),
    decreases u.len(),
{
    if u.len() > 0 {
        assert(spec_halve(u).drop_last() =~= spec_halve(u.drop_last()));
        lemma_mass_halve(u.drop_last());
        lemma_tdiv2_facts(u.last().x as int);
        lemma_tdiv2_facts(u.last().y as int);
        assert(spec_halve(u).last() == (Point {
            x: tdiv2(u.last().x as int) as i32,
            y: tdiv2(u.last().y as int) as i32,
        }));
        if exists|i: int| 0 <= i < u.len() && ((#[trigger] u[i]).x != 0 || u[i].y != 0) {
            let i = choose|i: int| 0 <= i < u.len() && ((#[trigger] u[i]).x != 0 || u[i].y != 0);
            if i == u.len() - 1 {
                assert(u.last() == u[i]);
            } else {
                assert(u.drop_last()[i] == u[i]);
            }
        }
    }
}

/// An accepted halving strictly shrinks the head mass: were every step but
/// the last zero, two of them would be collinear.
pub proof fn lemma_accept_decreases(s: Seq<Point<i32>>, si: u32, closed: bool)
    requires
        3 <= s.len(),
        minify_accept(s, si, closed),
    ensures
        head_mass(spec_halve_adj(s, closed)) < head_mass(s),
{
    let h = spec_halve_adj(s, closed);
    let hh = spec_halve(s);
    let head = s.take(s.len() - 1);
    assert(h.take(s.len() - 1) =~= spec_halve(head));
    if forall|i: int| 0 <= i < head.len() ==> (#[trigger] head[i]).x == 0 && head[i].y == 0 {
        assert(h[0] == spec_halve(head)[0]);
        assert(h[1] == spec_halve(head)[1]);
        assert(h[0].x == 0 && h[0].y == 0 && h[1].x == 0 && h[1].y == 0);
        assert(h[0].x * h[1].y == h[0].y * h[1].x);
        assert(spec_has_collinear(h));
        assert(false);
    } else {
        let i = choose|i: int|
            0 <= i < head.len() && !((#[trigger] head[i]).x == 0 && head[i].y == 0);
        lemma_mass_halve(head);
    }
}

/// The walk of `a` is simple: accumulate the vertices into the scratch
/// buffer and test each new segment against every earlier non-adjacent one.
pub(crate) fn walk_is_simple(
    a: &Vec<Point<i32>>,
    walk: &mut Vec<Point<i64>>,
    strict: bool,
    closed: bool,
) -> (r: bool)
    requires
        wf_steps(a@),
    ensures
        r == spec_is_simple(a@, strict, closed),
{
    let n = a.len();
    walk.clear();
    walk.push(Point { x: 0i64, y: 0i64 });
    let mut vx: i64 = 0;
    let mut vy: i64 = 0;
    let mut i: usize = 0;
    while i < n
        invariant
            i <= n,
            n == a@.len(),
            wf_steps(a@),
            walk@.len() == i + 1,
            forall|k: int| 0 <= k <= i ==> (#[trigger] walk@[k])@ == vert(a@, k),
            forall|k: int| 0 <= k <= i ==> pt_in_range(#[trigger] walk@[k]),
            vx == vert_x(a@, i as int),
            vy == vert_y(a@, i as int),
            -(i as int) * (MAX_COORD as int) <= vx <= (i as int) * (MAX_COORD as int),
            -(i as int) * (MAX_COORD as int) <= vy <= (i as int) * (MAX_COORD as int),
            rows_simple(a@, strict, closed, i as int),
        decreases n - i,
    {
        let step = a[i];
        vx = vx + step.x as i64;
        vy = vy + step.y as i64;
        walk.push(Point { x: vx, y: vy });
        if i >= 2 {
            let lo: usize = if closed && i == n - 1 {
                1
            } else {
                0
            };
            let mut j: usize = lo;
            while j < i - 1
                invariant
                    lo <= j <= i - 1,
                    2 <= i < n,
                    n == a@.len(),
                    wf_steps(a@),
                    lo as int == seg_lo(n as int, closed, i as int),
                    walk@.len() == i + 2,
                    forall|k: int| 0 <= k <= i + 1 ==> (#[trigger] walk@[k])@ == vert(a@, k),
                    forall|k: int| 0 <= k <= i + 1 ==> pt_in_range(#[trigger] walk@[k]),
                    rows_simple(a@, strict, closed, i as int),
                    forall|b: int|
                        lo <= b < j ==> !#[trigger] spec_segments_intersect(
                            vert(a@, i as int),
                            vert(a@, i as int + 1),
                            vert(a@, b),
                            vert(a@, b + 1),
                            strict,
                        ),
                decreases i - j,
            {
                let hit = segments_intersect(
                    [walk[i], walk[i + 1], walk[j], walk[j + 1]],
                    strict,
                );
                if hit {
                    proof {
                        assert(!spec_is_simple(a@, strict, closed));
                    }
                    return false;
                }
                j = j + 1;
            }
            proof {
                assert(rows_simple(a@, strict, closed, i as int + 1)) by {
                    assert forall|r: int, b: int|
                        2 <= r < i + 1 && seg_lo(a@.len() as int, closed, r) <= b <= r - 2
                            implies !#[trigger] spec_segments_intersect(
                        vert(a@, r),
                        vert(a@, r + 1),
                        vert(a@, b),
                        vert(a@, b + 1),
                        strict,
                    ) by {
                        if r < i {
                        } else {
                            assert(r == i);
                        }
                    }
                }
            }
        } else {
            proof {
                assert(rows_simple(a@, strict, closed, i as int + 1));
            }
        }
        i = i + 1;
    }
    true
}


/// `c / 2`, truncating toward zero.
fn half_toward_zero(c: i32) -> (r: i32)
    requires
        c > i32::MIN,
    ensures
        r as int == tdiv2(c as int),
{
    if c >= 0 {
        c / 2
    } else {
        -((-c) / 2)
    }
}

/// Copy `src` over `dst`.
fn copy_steps(src: &Vec<Point<i32>>, dst: &mut Vec<Point<i32>>)
    ensures
        final(dst)@ == src@,
{
    dst.clear();
    let n = src.len();
    let mut i: usize = 0;
    while i < n
        invariant
            i <= n,
            n == src@.len(),
            dst@ =~= src@.take(i as int),
        decreases n - i,
    {
        dst.push(src[i]);
        i = i + 1;
    }
    proof {
        assert(dst@ =~= src@);
    }
}

impl Walker {
    /// Repeatedly halve every step component (keeping the walk closed in
    /// closed mode); keep a halved configuration iff it is non-collinear and
    /// its strict simpleness index still equals `si`, else revert and stop.
    /// Finally canonicalise the orientation: negate all x components when
    /// their signs sum negative, likewise all y.  Returns whether anything
    /// changed.
    pub fn minify_steps(&mut self, si: u32) -> (r: bool)
        requires
            old(self).wf(),
        ensures
            final(self).wf(),
            final(self).spec_closed() == old(self).spec_closed(),
            final(self).steps_view().len() == old(self).steps_view().len(),
            final(self).steps_view() == spec_minify(old(self).steps_view(), si, old(
                self,
            ).spec_closed()),
            r == (final(self).steps_view() != old(self).steps_view()),
    {
        let ghost s0 = self.steps@;
        let ghost closed = self.closed;
        let n = self.steps.len();
        let mut minified = false;
        let mut snapshot: Vec<Point<i32>> = Vec::new();
        let mut go = true;
        while go
            invariant
                self.wf(),
                self.closed == closed,
                self.steps@.len() == n,
                s0.len() == n,
                wf_steps(s0),
                spec_minify_loop(s0, si, closed) == spec_minify_loop(self.steps@, si, closed),
                !go ==> spec_minify_loop(self.steps@, si, closed) == self.steps@,
                minified ==> head_mass(self.steps@) < head_mass(s0),
                !minified ==> self.steps@ == s0,
            decreases head_mass(self.steps@) + (if go { 1nat } else { 0nat }),
        {
            copy_steps(&self.steps, &mut snapshot);
            let ghost pre = self.steps@;
            // Halve every component, accumulating the halved sum.
            let mut vx: i32 = 0;
            let mut vy: i32 = 0;
            let mut i: usize = 0;
            while i < n
                invariant
                    i <= n,
                    self.steps@.len() == n,
                    pre.len() == n,
                    3 <= n <= 12,
                    wf_steps(pre),
                    forall|k: int| 0 <= k < i ==> (#[trigger] self.steps@[k]) == spec_halve(pre)[k],
                    forall|k: int| i <= k < n ==> (#[trigger] self.steps@[k]) == pre[k],
                    vx == sum_x(spec_halve(pre).take(i as int)),
                    vy == sum_y(spec_halve(pre).take(i as int)),
                    -(i as int) * 0x100_0000 <= vx <= (i as int) * 0x100_0000,
                    -(i as int) * 0x100_0000 <= vy <= (i as int) * 0x100_0000,
                    self.closed == closed,
                decreases n - i,
            {
                let c = self.steps[i];
                proof {
                    lemma_tdiv2_facts(c.x as int);
                    lemma_tdiv2_facts(c.y as int);
                    crate::lemma_sum_take_succ(spec_halve(pre), i as int);
                    assert(spec_halve(pre)[i as int] == (Point {
                        x: tdiv2(pre[i as int].x as int) as i32,
                        y: tdiv2(pre[i as int].y as int) as i32,
                    }));
                }
                let hx = half_toward_zero(c.x);
                let hy = half_toward_zero(c.y);
                self.steps[i] = Point { x: hx, y: hy };
                vx = vx + hx;
                vy = vy + hy;
                i = i + 1;
            }
            proof {
                assert(self.steps@ =~= spec_halve(pre));
                assert(spec_halve(pre).take(n as int) =~= spec_halve(pre));
            }
            // In closed mode adjust the last step so the sum returns to zero.
            if self.closed {
                proof {
                    lemma_halve_sum(pre);
                    assert(-6 <= vx <= 6 && -6 <= vy <= 6);
                    lemma_tdiv2_facts(pre[n - 1].x as int);
                    lemma_tdiv2_facts(pre[n - 1].y as int);
                    assert(spec_halve(pre)[n - 1] == (Point {
                        x: tdiv2(pre[n - 1].x as int) as i32,
                        y: tdiv2(pre[n - 1].y as int) as i32,
                    }));
                }
                let last = self.steps[n - 1];
                self.steps[n - 1] = Point { x: last.x - vx, y: last.y - vy };
                proof {
                    lemma_sum_update(
                        spec_halve(pre),
                        n - 1,
                        Point { x: (last.x - vx) as i32, y: (last.y - vy) as i32 },
                    );
                    assert(self.steps@ =~= spec_halve_adj(pre, closed));
                }
            } else {
                proof {
                    assert(self.steps@ =~= spec_halve_adj(pre, closed));
                }
            }
            proof {
                assert(wf_steps(self.steps@));
            }
            // Keep the halved configuration only if non-collinear and
            // SI-preserving under the strict predicate.
            let collinear = self.has_collinear_steps();
            let good = if collinear {
                false
            } else {
                self.simpleness_index(true) == si
            };
            proof {
                assert(good == minify_accept(pre, si, closed));
            }
            if good {
                minified = true;
                proof {
                    lemma_accept_decreases(pre, si, closed);
                    assert(spec_minify_loop(pre, si, closed) == spec_minify_loop(
                        spec_halve_adj(pre, closed),
                        si,
                        closed,
                    ));
                }
            } else {
                copy_steps(&snapshot, &mut self.steps);
                go = false;
                proof {
                    assert(self.steps@ == pre);
                    assert(spec_minify_loop(pre, si, closed) == pre);
                }
            }
        }
        let ghost m = self.steps@;
        proof {
            assert(m == spec_minify_loop(s0, si, closed));
        }
        let ghost loop_changed = minified;
        // Orientation canonicalisation: flip x signs if they sum negative.
        let sx = self.sign_sum_x();
        if sx < 0 {
            self.flip_x();
            minified = true;
        }
        let sy = self.sign_sum_y();
        if sy < 0 {
            self.flip_y();
            minified = true;
        }
        proof {
            assert(self.steps@ == spec_minify(s0, si, closed));
            lemma_flip_mass(m);
            if loop_changed {
                assert(head_mass(self.steps@) < head_mass(s0));
                assert(self.steps@ != s0);
            } else {
                assert(m == s0);
                if spec_sign_sum_x(m) < 0 {
                    lemma_sign_sum_witness_x(m);
                    let i = choose|i: int| 0 <= i < m.len() && m[i].x < 0;
                    assert(self.steps@[i].x != s0[i].x);
                    assert(self.steps@ != s0);
                } else if spec_sign_sum_y(m) < 0 {
                    lemma_sign_sum_witness_y(m);
                    let i = choose|i: int| 0 <= i < m.len() && m[i].y < 0;
                    assert(self.steps@[i].y != s0[i].y);
                    assert(self.steps@ != s0);
                } else {
                    assert(self.steps@ == s0);
                }
            }
        }
        minified
    }

    /// Sum of the signs of the x components.
    fn sign_sum_x(&self) -> (r: i32)
        requires
            wf_steps(self.steps_view()),
        ensures
            r as int == spec_sign_sum_x(self.steps_view()),
    {
        let n = self.steps.len();
        let mut r: i32 = 0;
        let mut i: usize = 0;
        proof {
            assert(self.steps@.take(0) =~= Seq::<Point<i32>>::empty());
        }
        while i < n
            invariant
                i <= n,
                n == self.steps@.len() <= 12,
                r as int == spec_sign_sum_x(self.steps@.take(i as int)),
                -(i as int) <= r as int <= i as int,
            decreases n - i,
        {
            proof {
                assert(self.steps@.take(i as int + 1).drop_last() =~= self.steps@.take(i as int));
                assert(self.steps@.take(i as int + 1).last() == self.steps@[i as int]);
            }
            let x = self.steps[i].x;
            if x > 0 {
                r = r + 1;
            } else if x < 0 {
                r = r - 1;
            }
            i = i + 1;
        }
        proof {
            assert(self.steps@.take(n as int) =~= self.steps@);
        }
        r
    }

    /// Sum of the signs of the y components.
    fn sign_sum_y(&self) -> (r: i32)
        requires
            wf_steps(self.steps_view()),
        ensures
            r as int == spec_sign_sum_y(self.steps_view()),
    {
        let n = self.steps.len();
        let mut r: i32 = 0;
        let mut i: usize = 0;
        proof {
            assert(self.steps@.take(0) =~= Seq::<Point<i32>>::empty());
        }
        while i < n
            invariant
                i <= n,
                n == self.steps@.len() <= 12,
                r as int == spec_sign_sum_y(self.steps@.take(i as int)),
                -(i as int) <= r as int <= i as int,
            decreases n - i,
        {
            proof {
                assert(self.steps@.take(i as int + 1).drop_last() =~= self.steps@.take(i as int));
                assert(self.steps@.take(i as int + 1).last() == self.steps@[i as int]);
            }
            let y = self.steps[i].y;
            if y > 0 {
                r = r + 1;
            } else if y < 0 {
                r = r - 1;
            }
            i = i + 1;
        }
        proof {
            assert(self.steps@.take(n as int) =~= self.steps@);
        }
        r
    }

    fn flip_x(&mut self)
        requires
            old(self).wf(),
        ensures
            final(self).wf(),
            final(self).spec_closed() == old(self).spec_closed(),
            final(self).steps_view() == spec_flip_x(old(self).steps_view()),
    {
        let ghost s0 = self.steps@;
        let n = self.steps.len();
        let mut i: usize = 0;
        while i < n
            invariant
                i <= n,
                self.steps@.len() == n,
                s0.len() == n,
                wf_steps(s0),
                self.closed == old(self).closed,
                forall|k: int| 0 <= k < i ==> (#[trigger] self.steps@[k]) == spec_flip_x(s0)[k],
                forall|k: int| i <= k < n ==> (#[trigger] self.steps@[k]) == s0[k],
            decreases n - i,
        {
            let c = self.steps[i];
            self.steps[i] = Point { x: -c.x, y: c.y };
            i = i + 1;
        }
        proof {
            assert(self.steps@ =~= spec_flip_x(s0));
            lemma_sum_flip_x(s0);
        }
    }

    fn flip_y(&mut self)
        requires
            old(self).wf(),
        ensures
            final(self).wf(),
            final(self).spec_closed() == old(self).spec_closed(),
            final(self).steps_view() == spec_flip_y(old(self).steps_view()),
    {
        let ghost s0 = self.steps@;
        let n = self.steps.len();
        let mut i: usize = 0;
        while i < n
            invariant
                i <= n,
                self.steps@.len() == n,
                s0.len() == n,
                wf_steps(s0),
                self.closed == old(self).closed,
                forall|k: int| 0 <= k < i ==> (#[trigger] self.steps@[k]) == spec_flip_y(s0)[k],
                forall|k: int| i <= k < n ==> (#[trigger] self.steps@[k]) == s0[k],
            decreases n - i,
        {
            let c = self.steps[i];
            self.steps[i] = Point { x: c.x, y: -c.y };
            i = i + 1;
        }
        proof {
            assert(self.steps@ =~= spec_flip_y(s0));
            lemma_sum_flip_y(s0);
        }
    }
}

/// Negating x components negates the x sum and keeps the y sum.
pub proof fn lemma_sum_flip_x(s: Seq<Point<i32>>)
    requires
        steps_bounded(s),
    ensures
        sum_x(spec_flip_x(s)) == -sum_x(s),
        sum_y(spec_flip_x(s)) == sum_y(s),
    decreases s.len(),
{
    if s.len() > 0 {
        assert(spec_flip_x(s).drop_last() =~= spec_flip_x(s.drop_last()));
        lemma_sum_flip_x(s.drop_last());
        assert(spec_flip_x(s).last() == (Point {
            x: (-(s.last().x as int)) as i32,
            y: s.last().y,
        }));
    }
}

/// Negating y components negates the y sum and keeps the x sum.
pub proof fn lemma_sum_flip_y(s: Seq<Point<i32>>)
    requires
        steps_bounded(s),
    ensures
        sum_x(spec_flip_y(s)) == sum_x(s),
        sum_y(spec_flip_y(s)) == -sum_y(s),
    decreases s.len(),
{
    if s.len() > 0 {
        assert(spec_flip_y(s).drop_last() =~= spec_flip_y(s.drop_last()));
        lemma_sum_flip_y(s.drop_last());
        assert(spec_flip_y(s).last() == (Point {
            x: s.last().x,
            y: (-(s.last().y as int)) as i32,
        }));
    }
}

/// Sign flips keep every magnitude, hence every mass.
pub proof fn lemma_flip_mass(s: Seq<Point<i32>>)
    requires
        steps_bounded(s),
    ensures
        head_mass(spec_flip_x(s)) == head_mass(s),
        head_mass(spec_flip_y(s)) == head_mass(s),
        head_mass(spec_flip_y(spec_flip_x(s))) == head_mass(s),
{
    if s.len() == 0 {
        assert(spec_flip_x(s) =~= s);
        assert(spec_flip_y(s) =~= s);
        assert(spec_flip_y(spec_flip_x(s)) =~= s);
    } else {
        assert(spec_flip_x(s).take(s.len() - 1) =~= spec_flip_x(s.take(s.len() - 1)));
        assert(spec_flip_y(s).take(s.len() - 1) =~= spec_flip_y(s.take(s.len() - 1)));
        assert(spec_flip_y(spec_flip_x(s)).take(s.len() - 1) =~= spec_flip_y(
            spec_flip_x(s.take(s.len() - 1)),
        ));
        lemma_abs_mass_flip(s.take(s.len() - 1));
    }
}

proof fn lemma_abs_mass_flip(s: Seq<Point<i32>>)
    requires
        steps_bounded(s),
    ensures
        abs_mass(spec_flip_x(s)) == abs_mass(s),
        abs_mass(spec_flip_y(s)) == abs_mass(s),
        abs_mass(spec_flip_y(spec_flip_x(s))) == abs_mass(s),
    decreases s.len(),
{
    if s.len() > 0 {
        assert(spec_flip_x(s).drop_last() =~= spec_flip_x(s.drop_last()));
        assert(spec_flip_y(s).drop_last() =~= spec_flip_y(s.drop_last()));
        assert(spec_flip_y(spec_flip_x(s)).drop_last() =~= spec_flip_y(
            spec_flip_x(s.drop_last()),
        ));
        lemma_abs_mass_flip(s.drop_last());
        assert(spec_flip_x(s).last() == (Point {
            x: (-(s.last().x as int)) as i32,
            y: s.last().y,
        }));
        assert(spec_flip_y(s).last() == (Point {
            x: s.last().x,
            y: (-(s.last().y as int)) as i32,
        }));
        assert(spec_flip_y(spec_flip_x(s)).last() == (Point {
            x: (-(s.last().x as int)) as i32,
            y: (-(s.last().y as int)) as i32,
        }));
    }
}

/// A negative sign sum means some component is negative.
proof fn lemma_sign_sum_witness_x(s: Seq<Point<i32>>)
    requires
        spec_sign_sum_x(s) < 0,
    ensures
        exists|i: int| 0 <= i < s.len() && (#[trigger] s[i]).x < 0,
    decreases s.len(),
{
    if s.len() > 0 {
        if s.last().x < 0 {
            assert(s[s.len() - 1].x < 0);
        } else {
            lemma_sign_sum_witness_x(s.drop_last());
            let i = choose|i: int| 0 <= i < s.drop_last().len() && (#[trigger] s.drop_last()[i]).x
                < 0;
            assert(s[i].x < 0);
        }
    }
}

proof fn lemma_sign_sum_witness_y(s: Seq<Point<i32>>)
    requires
        spec_sign_sum_y(s) < 0,
    ensures
        exists|i: int| 0 <= i < s.len() && (#[trigger] s[i]).y < 0,
    decreases s.len(),
{
    if s.len() > 0 {
        if s.last().y < 0 {
            assert(s[s.len() - 1].y < 0);
        } else {
            lemma_sign_sum_witness_y(s.drop_last());
            let i = choose|i: int| 0 <= i < s.drop_last().len() && (#[trigger] s.drop_last()[i]).y
                < 0;
            assert(s[i].y < 0);
        }
    }
}


/// Halving (with the closing adjustment) keeps a step sequence well formed
/// and, in closed mode, keeps the sum at the origin.
pub proof fn lemma_halve_adj_wf(s: Seq<Point<i32>>, closed: bool)
    requires
        wf_steps(s),
        closed ==> sum_x(s) == 0 && sum_y(s) == 0,
    ensures
        wf_steps(spec_halve_adj(s, closed)),
        spec_halve_adj(s, closed).len() == s.len(),
        closed ==> sum_x(spec_halve_adj(s, closed)) == 0 && sum_y(spec_halve_adj(s, closed))
            == 0,
{
    let h = spec_halve(s);
    assert forall|i: int| 0 <= i < s.len() implies -0x100_0000 <= (#[trigger] h[i]).x
        <= 0x100_0000 && -0x100_0000 <= h[i].y <= 0x100_0000 by {
        lemma_tdiv2_facts(s[i].x as int);
        lemma_tdiv2_facts(s[i].y as int);
    }
    if closed {
        lemma_halve_sum(s);
        let n = s.len() as int;
        let v = Point {
            x: (h.last().x - sum_x(h)) as i32,
            y: (h.last().y - sum_y(h)) as i32,
        };
        lemma_sum_update(h, n - 1, v);
        assert(spec_halve_adj(s, closed) == h.update(n - 1, v));
        assert forall|i: int| 0 <= i < n implies -MAX_COORD <= (#[trigger] spec_halve_adj(
            s,
            closed,
        )[i]).x <= MAX_COORD && -MAX_COORD <= spec_halve_adj(s, closed)[i].y <= MAX_COORD by {
            if i == n - 1 {
                assert(spec_halve_adj(s, closed)[i] == v);
            } else {
                assert(spec_halve_adj(s, closed)[i] == h[i]);
            }
        }
    }
}

/// The halving loop keeps the sequence well formed and, in closed mode, the
/// sum at the origin; its result admits no further accepted halving.
pub proof fn lemma_minify_loop_wf(s: Seq<Point<i32>>, si: u32, closed: bool)
    requires
        wf_steps(s),
        closed ==> sum_x(s) == 0 && sum_y(s) == 0,
    ensures
        wf_steps(spec_minify_loop(s, si, closed)),
        spec_minify_loop(s, si, closed).len() == s.len(),
        closed ==> sum_x(spec_minify_loop(s, si, closed)) == 0 && sum_y(
            spec_minify_loop(s, si, closed),
        ) == 0,
        !minify_accept(spec_minify_loop(s, si, closed), si, closed),
    decreases head_mass(s),
{
    if 3 <= s.len() && minify_accept(s, si, closed) && head_mass(spec_halve_adj(s, closed))
        < head_mass(s) {
        lemma_halve_adj_wf(s, closed);
        lemma_minify_loop_wf(spec_halve_adj(s, closed), si, closed);
    } else {
        if minify_accept(s, si, closed) && 3 <= s.len() {
            lemma_accept_decreases(s, si, closed);
        }
    }
}

/// Halving commutes with negating all x (or all y) components.
proof fn lemma_halve_adj_flip(s: Seq<Point<i32>>, closed: bool)
    requires
        wf_steps(s),
    ensures
        spec_halve_adj(spec_flip_x(s), closed) == spec_flip_x(spec_halve_adj(s, closed)),
        spec_halve_adj(spec_flip_y(s), closed) == spec_flip_y(spec_halve_adj(s, closed)),
{
    let h = spec_halve(s);
    assert(spec_halve(spec_flip_x(s)) =~= spec_flip_x(h));
    assert(spec_halve(spec_flip_y(s)) =~= spec_flip_y(h));
    assert forall|i: int| 0 <= i < s.len() implies -0x100_0000 <= (#[trigger] h[i]).x
        <= 0x100_0000 && -0x100_0000 <= h[i].y <= 0x100_0000 by {
        lemma_tdiv2_facts(s[i].x as int);
        lemma_tdiv2_facts(s[i].y as int);
    }
    if closed && s.len() > 0 {
        lemma_sum_flip_x(h);
        lemma_sum_flip_y(h);
        lemma_sum_bounds(h, 0x100_0000);
        let n = s.len() as int;
        let vadj = Point {
            x: (h.last().x - sum_x(h)) as i32,
            y: (h.last().y - sum_y(h)) as i32,
        };
        assert(spec_halve_adj(s, closed) == h.update(n - 1, vadj));
        // The x-mirrored halving adjusts the last step to the mirrored value.
        let hx = spec_flip_x(h);
        let vadjx = Point {
            x: (hx.last().x - sum_x(hx)) as i32,
            y: (hx.last().y - sum_y(hx)) as i32,
        };
        assert(hx.last() == (Point { x: (-(h.last().x as int)) as i32, y: h.last().y }));
        assert(hx.last().x as int == -(h.last().x as int));
        assert(vadjx.x as int == -(vadj.x as int) && vadjx.y == vadj.y);
        assert(spec_halve_adj(spec_flip_x(s), closed) == hx.update(n - 1, vadjx));
        assert forall|i: int| 0 <= i < n implies #[trigger] hx.update(n - 1, vadjx)[i] == spec_flip_x(
            h.update(n - 1, vadj),
        )[i] by {
            if i == n - 1 {
            } else {
                assert(hx[i] == spec_flip_x(h)[i]);
            }
        }
        assert(spec_halve_adj(spec_flip_x(s), closed) =~= spec_flip_x(
            spec_halve_adj(s, closed),
        ));
        let hy = spec_flip_y(h);
        let vadjy = Point {
            x: (hy.last().x - sum_x(hy)) as i32,
            y: (hy.last().y - sum_y(hy)) as i32,
        };
        assert(hy.last() == (Point { x: h.last().x, y: (-(h.last().y as int)) as i32 }));
        assert(hy.last().y as int == -(h.last().y as int));
        assert(vadjy.y as int == -(vadj.y as int) && vadjy.x == vadj.x);
        assert(spec_halve_adj(spec_flip_y(s), closed) == hy.update(n - 1, vadjy));
        assert forall|i: int| 0 <= i < n implies #[trigger] hy.update(n - 1, vadjy)[i] == spec_flip_y(
            h.update(n - 1, vadj),
        )[i] by {
            if i == n - 1 {
            } else {
                assert(hy[i] == spec_flip_y(h)[i]);
            }
        }
        assert(spec_halve_adj(spec_flip_y(s), closed) =~= spec_flip_y(
            spec_halve_adj(s, closed),
        ));
    } else {
        assert(spec_halve_adj(spec_flip_x(s), closed) =~= spec_flip_x(
            spec_halve_adj(s, closed),
        ));
        assert(spec_halve_adj(spec_flip_y(s), closed) =~= spec_flip_y(
            spec_halve_adj(s, closed),
        ));
    }
}

/// Collinearity of two steps survives negating all x (or all y) components.
proof fn lemma_collinear_flip(s: Seq<Point<i32>>)
    requires
        steps_bounded(s),
    ensures
        spec_has_collinear(spec_flip_x(s)) == spec_has_collinear(s),
        spec_has_collinear(spec_flip_y(s)) == spec_has_collinear(s),
{
    let fx = spec_flip_x(s);
    let fy = spec_flip_y(s);
    assert forall|i: int, j: int|
        #![trigger s[i], s[j]]
        0 <= i < j < s.len() implies ((s[i].x * s[j].y == s[i].y * s[j].x) == (fx[i].x
        * fx[j].y == fx[i].y * fx[j].x) && (s[i].x * s[j].y == s[i].y * s[j].x) == (fy[i].x
        * fy[j].y == fy[i].y * fy[j].x)) by {
        assert((-(s[i].x as int)) * (s[j].y as int) == -((s[i].x as int) * (s[j].y as int)))
            by (nonlinear_arith);
        assert((s[i].y as int) * (-(s[j].x as int)) == -((s[i].y as int) * (s[j].x as int)))
            by (nonlinear_arith);
        assert((s[i].x as int) * (-(s[j].y as int)) == -((s[i].x as int) * (s[j].y as int)))
            by (nonlinear_arith);
        assert((-(s[i].y as int)) * (s[j].x as int) == -((s[i].y as int) * (s[j].x as int)))
            by (nonlinear_arith);
    }
    if spec_has_collinear(s) {
        let (i, j) = choose|i: int, j: int|
            #![trigger s[i], s[j]]
            0 <= i < j < s.len() && s[i].x * s[j].y == s[i].y * s[j].x;
        assert(fx[i].x * fx[j].y == fx[i].y * fx[j].x);
        assert(fy[i].x * fy[j].y == fy[i].y * fy[j].x);
    }
    if spec_has_collinear(fx) {
        let (i, j) = choose|i: int, j: int|
            #![trigger fx[i], fx[j]]
            0 <= i < j < fx.len() && fx[i].x * fx[j].y == fx[i].y * fx[j].x;
        assert(s[i].x * s[j].y == s[i].y * s[j].x);
        assert(spec_has_collinear(s));
    }
    if spec_has_collinear(fy) {
        let (i, j) = choose|i: int, j: int|
            #![trigger fy[i], fy[j]]
            0 <= i < j < fy.len() && fy[i].x * fy[j].y == fy[i].y * fy[j].x;
        assert(s[i].x * s[j].y == s[i].y * s[j].x);
        assert(spec_has_collinear(s));
    }
}

/// Mirroring a walk negates every vertex coordinate on the mirrored axis.
proof fn lemma_vert_flip(a: Seq<Point<i32>>, k: int)
    requires
        steps_bounded(a),
        0 <= k <= a.len(),
    ensures
        vert_x(spec_flip_x(a), k) == -vert_x(a, k),
        vert_y(spec_flip_x(a), k) == vert_y(a, k),
        vert_x(spec_flip_y(a), k) == vert_x(a, k),
        vert_y(spec_flip_y(a), k) == -vert_y(a, k),
    decreases k,
{
    if k > 0 {
        lemma_vert_flip(a, k - 1);
        assert(spec_flip_x(a)[k - 1] == (Point {
            x: (-(a[k - 1].x as int)) as i32,
            y: a[k - 1].y,
        }));
        assert(spec_flip_y(a)[k - 1] == (Point {
            x: a[k - 1].x,
            y: (-(a[k - 1].y as int)) as i32,
        }));
    }
}

/// A mirror image of a walk is simple exactly when the walk is, under the
/// strict predicate.
proof fn lemma_simple_flip(a: Seq<Point<i32>>, closed: bool)
    requires
        steps_bounded(a),
    ensures
        spec_is_simple(spec_flip_x(a), true, closed) == spec_is_simple(a, true, closed),
        spec_is_simple(spec_flip_y(a), true, closed) == spec_is_simple(a, true, closed),
{
    let fx = spec_flip_x(a);
    let fy = spec_flip_y(a);
    assert(fx.len() == a.len());
    assert(fy.len() == a.len());
    if spec_is_simple(a, true, closed) {
        assert forall|i: int, j: int|
            2 <= i < fx.len() && seg_lo(fx.len() as int, closed, i) <= j <= i - 2
                implies !#[trigger] spec_segments_intersect(
            vert(fx, i),
            vert(fx, i + 1),
            vert(fx, j),
            vert(fx, j + 1),
            true,
        ) by {
            lemma_vert_flip(a, i);
            lemma_vert_flip(a, i + 1);
            lemma_vert_flip(a, j);
            lemma_vert_flip(a, j + 1);
            crate::geom::lemma_intersect_flip_x(
                vert(a, i),
                vert(a, i + 1),
                vert(a, j),
                vert(a, j + 1),
            );
            assert(!spec_segments_intersect(
                vert(a, i),
                vert(a, i + 1),
                vert(a, j),
                vert(a, j + 1),
                true,
            ));
        }
        assert(spec_is_simple(fx, true, closed));
        assert forall|i: int, j: int|
            2 <= i < fy.len() && seg_lo(fy.len() as int, closed, i) <= j <= i - 2
                implies !#[trigger] spec_segments_intersect(
            vert(fy, i),
            vert(fy, i + 1),
            vert(fy, j),
            vert(fy, j + 1),
            true,
        ) by {
            lemma_vert_flip(a, i);
            lemma_vert_flip(a, i + 1);
            lemma_vert_flip(a, j);
            lemma_vert_flip(a, j + 1);
            crate::geom::lemma_intersect_flip_y(
                vert(a, i),
                vert(a, i + 1),
                vert(a, j),
                vert(a, j + 1),
            );
            assert(!spec_segments_intersect(
                vert(a, i),
                vert(a, i + 1),
                vert(a, j),
                vert(a, j + 1),
                true,
            ));
        }
        assert(spec_is_simple(fy, true, closed));
    }
    if !spec_is_simple(a, true, closed) {
        let (i, j) = choose|i: int, j: int|
            2 <= i < a.len() && seg_lo(a.len() as int, closed, i) <= j <= i - 2
                && #[trigger] spec_segments_intersect(
                vert(a, i),
                vert(a, i + 1),
                vert(a, j),
                vert(a, j + 1),
                true,
            );
        lemma_vert_flip(a, i);
        lemma_vert_flip(a, i + 1);
        lemma_vert_flip(a, j);
        lemma_vert_flip(a, j + 1);
        crate::geom::lemma_intersect_flip_x(
            vert(a, i),
            vert(a, i + 1),
            vert(a, j),
            vert(a, j + 1),
        );
        crate::geom::lemma_intersect_flip_y(
            vert(a, i),
            vert(a, i + 1),
            vert(a, j),
            vert(a, j + 1),
        );
        assert(spec_segments_intersect(vert(fx, i), vert(fx, i + 1), vert(fx, j), vert(fx, j + 1), true));
        assert(spec_segments_intersect(vert(fy, i), vert(fy, i + 1), vert(fy, j), vert(fy, j + 1), true));
        assert(!spec_is_simple(fx, true, closed));
        assert(!spec_is_simple(fy, true, closed));
    }
}

/// Mirroring the steps leaves the strict simpleness index unchanged.
proof fn lemma_si_flip(s: Seq<Point<i32>>, closed: bool)
    requires
        steps_bounded(s),
    ensures
        spec_si(spec_flip_x(s), true, closed) == spec_si(s, true, closed),
        spec_si(spec_flip_y(s), true, closed) == spec_si(s, true, closed),
{
    let n = s.len();
    let cond = si_cond(s, true, closed);
    let condx = si_cond(spec_flip_x(s), true, closed);
    let condy = si_cond(spec_flip_y(s), true, closed);
    let ex = perm_exts(Seq::<usize>::empty(), n, cond);
    let exx = perm_exts(Seq::<usize>::empty(), n, condx);
    let exy = perm_exts(Seq::<usize>::empty(), n, condy);
    assert forall|p: Seq<usize>| is_perm(p, n) implies (condx(p) == cond(p)) && (condy(p)
        == cond(p)) by {
        assert(apply_perm(p, spec_flip_x(s)) =~= spec_flip_x(apply_perm(p, s)));
        assert(apply_perm(p, spec_flip_y(s)) =~= spec_flip_y(apply_perm(p, s)));
        assert(steps_bounded(apply_perm(p, s)));
        lemma_simple_flip(apply_perm(p, s), closed);
        assert(condx(p) == spec_is_simple(apply_perm(p, spec_flip_x(s)), true, closed));
        assert(cond(p) == spec_is_simple(apply_perm(p, s), true, closed));
        assert(condy(p) == spec_is_simple(apply_perm(p, spec_flip_y(s)), true, closed));
    }
    assert forall|p: Seq<usize>| #[trigger] exx.contains(p) implies ex.contains(p) by {
        assert(condx(p) == cond(p));
    }
    assert forall|p: Seq<usize>| #[trigger] ex.contains(p) implies exx.contains(p) by {
        assert(condx(p) == cond(p));
    }
    assert forall|p: Seq<usize>| #[trigger] exy.contains(p) implies ex.contains(p) by {
        assert(condy(p) == cond(p));
    }
    assert forall|p: Seq<usize>| #[trigger] ex.contains(p) implies exy.contains(p) by {
        assert(condy(p) == cond(p));
    }
    assert(exx =~= ex);
    assert(exy =~= ex);
}

/// Acceptance of a halving survives mirroring the steps.
proof fn lemma_accept_flip(s: Seq<Point<i32>>, si: u32, closed: bool)
    requires
        wf_steps(s),
        closed ==> sum_x(s) == 0 && sum_y(s) == 0,
    ensures
        minify_accept(spec_flip_x(s), si, closed) == minify_accept(s, si, closed),
        minify_accept(spec_flip_y(s), si, closed) == minify_accept(s, si, closed),
{
    let h = spec_halve_adj(s, closed);
    lemma_halve_adj_flip(s, closed);
    lemma_halve_adj_wf(s, closed);
    lemma_collinear_flip(h);
    lemma_si_flip(h, closed);
}

/// Minification is idempotent: run on its own output it changes nothing.
pub proof fn lemma_minify_idempotent(s: Seq<Point<i32>>, si: u32, closed: bool)
    requires
        wf_steps(s),
        closed ==> sum_x(s) == 0 && sum_y(s) == 0,
    ensures
        spec_minify(spec_minify(s, si, closed), si, closed) == spec_minify(s, si, closed),
{
    let m = spec_minify_loop(s, si, closed);
    lemma_minify_loop_wf(s, si, closed);
    let m1 = if spec_sign_sum_x(m) < 0 { spec_flip_x(m) } else { m };
    let m2 = if spec_sign_sum_y(m1) < 0 { spec_flip_y(m1) } else { m1 };
    assert(m2 == spec_minify(s, si, closed));
    // The final sequence is still well formed.
    if spec_sign_sum_x(m) < 0 {
        lemma_sum_flip_x(m);
        assert(wf_steps(m1));
    }
    if spec_sign_sum_y(m1) < 0 {
        lemma_sum_flip_y(m1);
        assert(wf_steps(m2));
    }
    // No further halving is accepted on the final sequence.
    if spec_sign_sum_x(m) < 0 {
        lemma_sum_flip_x(m);
    }
    assert(!minify_accept(m2, si, closed)) by {
        if spec_sign_sum_x(m) < 0 {
            lemma_accept_flip(m, si, closed);
        }
        if spec_sign_sum_y(m1) < 0 {
            lemma_accept_flip(m1, si, closed);
        }
    }
    assert(spec_minify_loop(m2, si, closed) == m2);
    // And its sign sums are canonical already, so no flip applies either.
    lemma_sign_sum_flip(m);
    if spec_sign_sum_y(m1) < 0 {
        lemma_sign_sum_flip(m1);
    }
    assert(spec_sign_sum_x(m2) >= 0);
    assert(spec_sign_sum_y(m2) >= 0);
    assert(spec_minify(m2, si, closed) == m2);
}

/// Flipping negates the matching sign sum and keeps the other.
proof fn lemma_sign_sum_flip(s: Seq<Point<i32>>)
    requires
        steps_bounded(s),
    ensures
        spec_sign_sum_x(spec_flip_x(s)) == -spec_sign_sum_x(s),
        spec_sign_sum_y(spec_flip_x(s)) == spec_sign_sum_y(s),
        spec_sign_sum_x(spec_flip_y(s)) == spec_sign_sum_x(s),
        spec_sign_sum_y(spec_flip_y(s)) == -spec_sign_sum_y(s),
    decreases s.len(),
{
    if s.len() > 0 {
        assert(spec_flip_x(s).drop_last() =~= spec_flip_x(s.drop_last()));
        assert(spec_flip_y(s).drop_last() =~= spec_flip_y(s.drop_last()));
        lemma_sign_sum_flip(s.drop_last());
        assert(spec_flip_x(s).last() == (Point {
            x: (-(s.last().x as int)) as i32,
            y: s.last().y,
        }));
        assert(spec_flip_y(s).last() == (Point {
            x: s.last().x,
            y: (-(s.last().y as int)) as i32,
        }));
    }
}

/// Closed stability: in closed mode minification keeps the steps summing to
/// the origin.
pub proof fn lemma_minify_closed(s: Seq<Point<i32>>, si: u32)
    requires
        wf_steps(s),
        sum_x(s) == 0,
        sum_y(s) == 0,
    ensures
        sum_x(spec_minify(s, si, true)) == 0,
        sum_y(spec_minify(s, si, true)) == 0,
{
    lemma_minify_loop_wf(s, si, true);
    let m = spec_minify_loop(s, si, true);
    let m1 = if spec_sign_sum_x(m) < 0 { spec_flip_x(m) } else { m };
    if spec_sign_sum_x(m) < 0 {
        lemma_sum_flip_x(m);
    }
    if spec_sign_sum_y(m1) < 0 {
        lemma_sum_flip_y(m1);
    }
}

/// Minification preserves the strict simpleness index it was given, when
/// that index is the sequence's own.
pub proof fn lemma_minify_preserves_si(s: Seq<Point<i32>>, si: u32, closed: bool)
    requires
        wf_steps(s),
        closed ==> sum_x(s) == 0 && sum_y(s) == 0,
        spec_si(s, true, closed) == si,
    ensures
        spec_si(spec_minify(s, si, closed), true, closed) == si,
{
    lemma_minify_loop_si(s, si, closed);
    lemma_minify_loop_wf(s, si, closed);
    let m = spec_minify_loop(s, si, closed);
    let m1 = if spec_sign_sum_x(m) < 0 { spec_flip_x(m) } else { m };
    if spec_sign_sum_x(m) < 0 {
        lemma_si_flip(m, closed);
        lemma_sum_flip_x(m);
    }
    if spec_sign_sum_y(m1) < 0 {
        lemma_si_flip(m1, closed);
    }
}

proof fn lemma_minify_loop_si(s: Seq<Point<i32>>, si: u32, closed: bool)
    requires
        wf_steps(s),
        closed ==> sum_x(s) == 0 && sum_y(s) == 0,
        spec_si(s, true, closed) == si,
    ensures
        spec_si(spec_minify_loop(s, si, closed), true, closed) == si,
    decreases head_mass(s),
{
    if 3 <= s.len() && minify_accept(s, si, closed) && head_mass(spec_halve_adj(s, closed))
        < head_mass(s) {
        lemma_halve_adj_wf(s, closed);
        lemma_minify_loop_si(spec_halve_adj(s, closed), si, closed);
    }
}

/// Minification keeps a non-collinear sequence non-collinear.
pub proof fn lemma_minify_noncollinear(s: Seq<Point<i32>>, si: u32, closed: bool)
    requires
        wf_steps(s),
        closed ==> sum_x(s) == 0 && sum_y(s) == 0,
        !spec_has_collinear(s),
    ensures
        !spec_has_collinear(spec_minify(s, si, closed)),
{
    lemma_minify_loop_noncollinear(s, si, closed);
    lemma_minify_loop_wf(s, si, closed);
    let m = spec_minify_loop(s, si, closed);
    let m1 = if spec_sign_sum_x(m) < 0 { spec_flip_x(m) } else { m };
    if spec_sign_sum_x(m) < 0 {
        lemma_collinear_flip(m);
        lemma_sum_flip_x(m);
    }
    if spec_sign_sum_y(m1) < 0 {
        lemma_collinear_flip(m1);
    }
}

proof fn lemma_minify_loop_noncollinear(s: Seq<Point<i32>>, si: u32, closed: bool)
    requires
        wf_steps(s),
        closed ==> sum_x(s) == 0 && sum_y(s) == 0,
        !spec_has_collinear(s),
    ensures
        !spec_has_collinear(spec_minify_loop(s, si, closed)),
    decreases head_mass(s),
{
    if 3 <= s.len() && minify_accept(s, si, closed) && head_mass(spec_halve_adj(s, closed))
        < head_mass(s) {
        lemma_halve_adj_wf(s, closed);
        lemma_minify_loop_noncollinear(spec_halve_adj(s, closed), si, closed);
    }
}

/// Relabeling invariance: rearranging the steps by any permutation of the
/// positions leaves the simpleness index unchanged; in particular every even
/// permutation does.
pub proof fn lemma_si_relabel(s: Seq<Point<i32>>, q: Seq<usize>, strict: bool, closed: bool)
    requires
        is_perm(q, s.len()),
        s.len() <= usize::MAX,
    ensures
        spec_si(apply_perm(q, s), strict, closed) == spec_si(s, strict, closed),
{
    let n = s.len();
    let s2 = apply_perm(q, s);
    let cond1 = si_cond(s2, strict, closed);
    let cond2 = si_cond(s, strict, closed);
    assert(s2.len() == n);
    assert forall|p: Seq<usize>| is_perm(p, n) implies (#[trigger] cond1(p) <==> cond2(
        crate::perms::perm_compose(q, p),
    )) by {
        crate::perms::lemma_apply_compose(q, p, s, n);
    }
    crate::perms::lemma_exts_bijection(n, q, cond1, cond2);
}

/// A sequence of two or more all-zero steps is collinear, so it can never be
/// accepted into the catalogue.
pub proof fn lemma_zero_steps_collinear(s: Seq<Point<i32>>)
    requires
        s.len() >= 2,
        forall|i: int| 0 <= i < s.len() ==> (#[trigger] s[i]).x == 0 && s[i].y == 0,
    ensures
        spec_has_collinear(s),
{
    assert(s[0].x * s[1].y == s[0].y * s[1].x);
}

/// Iterated plain halving (no closing adjustment).
pub open spec fn halve_iter(s: Seq<Point<i32>>, k: nat) -> Seq<Point<i32>>
    decreases k,
{
    if k == 0 {
        s
    } else {
        spec_halve(halve_iter(s, (k - 1) as nat))
    }
}

pub open spec fn pow2(k: nat) -> nat
    decreases k,
{
    if k == 0 {
        1
    } else {
        2 * pow2((k - 1) as nat)
    }
}

proof fn lemma_halve_iter_comm(s: Seq<Point<i32>>, k: nat)
    ensures
        halve_iter(spec_halve(s), k) == spec_halve(halve_iter(s, k)),
    decreases k,
{
    if k > 0 {
        lemma_halve_iter_comm(s, (k - 1) as nat);
    }
}

/// In open mode the halving loop performs some number of plain halvings.
pub proof fn lemma_minify_loop_open(s: Seq<Point<i32>>, si: u32)
    ensures
        exists|k: nat| spec_minify_loop(s, si, false) == halve_iter(s, k),
    decreases head_mass(s),
{
    if 3 <= s.len() && minify_accept(s, si, false) && head_mass(spec_halve_adj(s, false))
        < head_mass(s) {
        assert(spec_halve_adj(s, false) == spec_halve(s));
        lemma_minify_loop_open(spec_halve(s), si);
        let k = choose|k: nat| spec_minify_loop(spec_halve(s), si, false) == halve_iter(
            spec_halve(s),
            k,
        );
        lemma_halve_iter_comm(s, k);
        assert(spec_minify_loop(s, si, false) == halve_iter(s, (k + 1) as nat));
    } else {
        assert(spec_minify_loop(s, si, false) == halve_iter(s, 0));
    }
}

/// After `k` halvings every component magnitude has shrunk by a factor of at
/// least `2^k`.
pub proof fn lemma_halve_iter_bound(s: Seq<Point<i32>>, k: nat, i: int)
    requires
        0 <= i < s.len(),
    ensures
        halve_iter(s, k).len() == s.len(),
        pow2(k) * iabs(halve_iter(s, k)[i].x as int) <= iabs(s[i].x as int),
        pow2(k) * iabs(halve_iter(s, k)[i].y as int) <= iabs(s[i].y as int),
    decreases k,
{
    if k == 0 {
        assert(pow2(0nat) == 1);
        assert(1 * iabs(s[i].x as int) == iabs(s[i].x as int)) by (nonlinear_arith);
        assert(1 * iabs(s[i].y as int) == iabs(s[i].y as int)) by (nonlinear_arith);
    } else {
        lemma_halve_iter_bound(s, (k - 1) as nat, i);
        let t = halve_iter(s, (k - 1) as nat);
        lemma_tdiv2_facts(t[i].x as int);
        lemma_tdiv2_facts(t[i].y as int);
        assert(halve_iter(s, k)[i] == (Point {
            x: tdiv2(t[i].x as int) as i32,
            y: tdiv2(t[i].y as int) as i32,
        }));
        assert(pow2(k) * iabs(halve_iter(s, k)[i].x as int) <= iabs(s[i].x as int))
            by (nonlinear_arith)
            requires
                pow2(k) == 2 * pow2((k - 1) as nat),
                2 * iabs(tdiv2(t[i].x as int)) <= iabs(t[i].x as int),
                halve_iter(s, k)[i].x as int == tdiv2(t[i].x as int),
                pow2((k - 1) as nat) * iabs(t[i].x as int) <= iabs(s[i].x as int),
                pow2((k - 1) as nat) >= 0,
        ;
        assert(pow2(k) * iabs(halve_iter(s, k)[i].y as int) <= iabs(s[i].y as int))
            by (nonlinear_arith)
            requires
                pow2(k) == 2 * pow2((k - 1) as nat),
                2 * iabs(tdiv2(t[i].y as int)) <= iabs(t[i].y as int),
                halve_iter(s, k)[i].y as int == tdiv2(t[i].y as int),
                pow2((k - 1) as nat) * iabs(t[i].y as int) <= iabs(s[i].y as int),
                pow2((k - 1) as nat) >= 0,
        ;
    }
}


/// What well-formedness of a walker gives its callers.
pub proof fn lemma_wf_unfold(w: Walker)
    requires
        w.wf(),
    ensures
        wf_steps(w.steps_view()),
        w.spec_closed() ==> sum_x(w.steps_view()) == 0 && sum_y(w.steps_view()) == 0,
{
}

/// Check that a step sequence is one the engine can work on.
pub fn steps_in_range(steps: &Vec<Point<i32>>) -> (r: bool)
    ensures
        r == wf_steps(steps@),
{
    let n = steps.len();
    if n < MIN_STEPS || n > MAX_STEPS {
        return false;
    }
    let mut i: usize = 0;
    while i < n
        invariant
            i <= n,
            n == steps@.len(),
            MIN_STEPS <= n <= MAX_STEPS,
            forall|k: int|
                0 <= k < i ==> -MAX_COORD <= (#[trigger] steps@[k]).x <= MAX_COORD && -MAX_COORD
                    <= steps@[k].y <= MAX_COORD,
        decreases n - i,
    {
        let p = steps[i];
        if p.x < -MAX_COORD || p.x > MAX_COORD || p.y < -MAX_COORD || p.y > MAX_COORD {
            return false;
        }
        i = i + 1;
    }
    true
}

/// The steps sum to the origin.
pub fn steps_sum_zero(steps: &Vec<Point<i32>>) -> (r: bool)
    requires
        wf_steps(steps@),
    ensures
        r == (sum_x(steps@) == 0 && sum_y(steps@) == 0),
{
    let n = steps.len();
    let mut sx: i64 = 0;
    let mut sy: i64 = 0;
    let mut i: usize = 0;
    proof {
        assert(steps@.take(0) =~= Seq::<Point<i32>>::empty());
    }
    while i < n
        invariant
            i <= n,
            n == steps@.len(),
            wf_steps(steps@),
            sx == sum_x(steps@.take(i as int)),
            sy == sum_y(steps@.take(i as int)),
            -(i as int) * (MAX_COORD as int) <= sx <= (i as int) * (MAX_COORD as int),
            -(i as int) * (MAX_COORD as int) <= sy <= (i as int) * (MAX_COORD as int),
        decreases n - i,
    {
        proof {
            crate::lemma_sum_take_succ(steps@, i as int);
        }
        sx = sx + steps[i].x as i64;
        sy = sy + steps[i].y as i64;
        i = i + 1;
    }
    proof {
        assert(steps@.take(n as int) =~= steps@);
    }
    sx == 0 && sy == 0
}

impl Walker {
    /// Replace the steps, keeping the configured closed flag (unlike
    /// `set_steps`, which recomputes it from the sum).
    pub fn load_steps(&mut self, steps: &Vec<Point<i32>>)
        requires
            wf_steps(steps@),
            old(self).spec_closed() ==> sum_x(steps@) == 0 && sum_y(steps@) == 0,
        ensures
            final(self).wf(),
            final(self).steps_view() == steps@,
            final(self).spec_closed() == old(self).spec_closed(),
    {
        copy_steps(steps, &mut self.steps);
    }
}


/// The strict simpleness index never exceeds the loose one: a loose
/// intersection is also a strict one, so every ordering that is simple under
/// the strict predicate is simple under the loose predicate too.  This is
/// what makes the loose index a sound fast filter.
pub proof fn lemma_si_strict_le_loose(s: Seq<Point<i32>>, closed: bool)
    requires
        s.len() <= usize::MAX,
    ensures
        spec_si(s, true, closed) <= spec_si(s, false, closed),
{
    let n = s.len();
    let cond_s = si_cond(s, true, closed);
    let cond_l = si_cond(s, false, closed);
    let a = perm_exts(Seq::<usize>::empty(), n, cond_s);
    let b = perm_exts(Seq::<usize>::empty(), n, cond_l);
    assert forall|p: Seq<usize>| a.contains(p) implies b.contains(p) by {
        let arr = apply_perm(p, s);
        assert(spec_is_simple(arr, true, closed));
        assert forall|i: int, j: int|
            2 <= i < arr.len() && seg_lo(arr.len() as int, closed, i) <= j <= i - 2
                implies !#[trigger] spec_segments_intersect(
            vert(arr, i),
            vert(arr, i + 1),
            vert(arr, j),
            vert(arr, j + 1),
            false,
        ) by {
            assert(!spec_segments_intersect(
                vert(arr, i),
                vert(arr, i + 1),
                vert(arr, j),
                vert(arr, j + 1),
                true,
            ));
            crate::geom::lemma_loose_implies_strict(
                vert(arr, i),
                vert(arr, i + 1),
                vert(arr, j),
                vert(arr, j + 1),
            );
        }
        assert(spec_is_simple(arr, false, closed));
    }
    lemma_exts_bound(Seq::<usize>::empty(), n, cond_l);
    vstd::set_lib::lemma_len_subset(a, b);
}

} // verus!
