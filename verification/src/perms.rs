//! Permutations of step positions: the model behind the simpleness index,
//! and the counting lemmas that its computation relies on.

use vstd::prelude::*;
use vstd::set_lib::{lemma_subset_equality, lemma_len_union, lemma_map_size, range_set_properties};
use vstd::relations::injective_on;

verus! {

/// `p` is a permutation of the positions `0 .. n`: it has length `n`, all
/// entries below `n`, and no entry twice.
pub open spec fn is_perm(p: Seq<usize>, n: nat) -> bool {
    &&& p.len() == n
    &&& forall|i: int| 0 <= i < p.len() ==> (#[trigger] p[i]) < n
    &&& forall|i: int, j: int| 0 <= i < j < p.len() ==> p[i] != p[j]
}

/// A prefix of a permutation: distinct positions below `n`, at most `n` of them.
pub open spec fn is_partial_perm(p: Seq<usize>, n: nat) -> bool {
    &&& p.len() <= n
    &&& forall|i: int| 0 <= i < p.len() ==> (#[trigger] p[i]) < n
    &&& forall|i: int, j: int| 0 <= i < j < p.len() ==> p[i] != p[j]
}

/// The sequence `s` rearranged by `p`: element `i` of the result is `s[p[i]]`.
pub open spec fn apply_perm<T>(p: Seq<usize>, s: Seq<T>) -> Seq<T> {
    Seq::new(p.len(), |i: int| s[p[i] as int])
}

/// All permutations of `n` positions that extend the prefix `pre` and
/// satisfy `cond`.
pub open spec fn perm_exts(pre: Seq<usize>, n: nat, cond: spec_fn(Seq<usize>) -> bool) -> Set<
    Seq<usize>,
> {
    Set::new(
        |p: Seq<usize>| is_perm(p, n) && p.take(pre.len() as int) == pre && cond(p),
    )
}

/// Those extensions whose next position is below `x`.
pub open spec fn perm_exts_below(
    pre: Seq<usize>,
    n: nat,
    cond: spec_fn(Seq<usize>) -> bool,
    x: int,
) -> Set<Seq<usize>> {
    Set::new(
        |p: Seq<usize>| is_perm(p, n) && p.take(pre.len() as int) == pre && cond(p) && p[pre.len()
            as int] < x,
    )
}

/// The factorial function.
pub open spec fn fact(k: nat) -> nat
    decreases k,
{
    if k == 0 {
        1
    } else {
        k * fact((k - 1) as nat)
    }
}

pub proof fn lemma_fact_mono(a: nat, b: nat)
    requires
        a <= b,
    ensures
        fact(a) <= fact(b),
    decreases b,
{
    if a < b {
        lemma_fact_mono(a, (b - 1) as nat);
        assert(fact(b) == b * fact((b - 1) as nat));
        assert(b * fact((b - 1) as nat) >= 1 * fact((b - 1) as nat)) by (nonlinear_arith)
            requires
                b >= 1,
                fact((b - 1) as nat) >= 0,
        ;
    }
}

/// A full-length prefix is itself the only permutation extending it.
pub proof fn lemma_exts_base(pre: Seq<usize>, n: nat, cond: spec_fn(Seq<usize>) -> bool)
    requires
        is_partial_perm(pre, n),
        pre.len() == n,
    ensures
        perm_exts(pre, n, cond).finite(),
        perm_exts(pre, n, cond).len() == if cond(pre) {
            1nat
        } else {
            0nat
        },
{
    let s = perm_exts(pre, n, cond);
    assert forall|p: Seq<usize>| s.contains(p) implies p == pre by {
        assert(p.take(pre.len() as int) =~= p);
    }
    if cond(pre) {
        assert(pre.take(pre.len() as int) =~= pre);
        assert(is_perm(pre, n));
        assert(s.contains(pre));
        assert(s =~= Set::empty().insert(pre));
    } else {
        assert(s =~= Set::<Seq<usize>>::empty());
    }
}

pub proof fn lemma_exts_below_zero(pre: Seq<usize>, n: nat, cond: spec_fn(Seq<usize>) -> bool)
    ensures
        perm_exts_below(pre, n, cond, 0).finite(),
        perm_exts_below(pre, n, cond, 0).len() == 0,
{
    assert(perm_exts_below(pre, n, cond, 0) =~= Set::<Seq<usize>>::empty());
}

/// A position already taken by the prefix adds no extensions.
pub proof fn lemma_exts_below_used(
    pre: Seq<usize>,
    n: nat,
    cond: spec_fn(Seq<usize>) -> bool,
    x: usize,
)
    requires
        is_partial_perm(pre, n),
        pre.len() < n,
        pre.contains(x),
    ensures
        perm_exts_below(pre, n, cond, x + 1) == perm_exts_below(pre, n, cond, x as int),
{
    let k = pre.len() as int;
    assert forall|p: Seq<usize>|
        perm_exts_below(pre, n, cond, x + 1).contains(p) implies perm_exts_below(
        pre,
        n,
        cond,
        x as int,
    ).contains(p) by {
        if p[k] == x {
            let j = choose|j: int| 0 <= j < pre.len() && pre[j] == x;
            assert(p.take(k)[j] == pre[j]);
            assert(p[j] == x);
            assert(false);
        }
    }
    assert(perm_exts_below(pre, n, cond, x + 1) =~= perm_exts_below(pre, n, cond, x as int));
}

/// A free position `x` splits the extensions below `x + 1` into those below
/// `x` and those that choose `x` next.
pub proof fn lemma_exts_below_step(
    pre: Seq<usize>,
    n: nat,
    cond: spec_fn(Seq<usize>) -> bool,
    x: usize,
)
    requires
        is_partial_perm(pre, n),
        pre.len() < n,
        x < n,
        !pre.contains(x),
    ensures
        is_partial_perm(pre.push(x), n),
        perm_exts_below(pre, n, cond, x + 1) == perm_exts_below(pre, n, cond, x as int).union(
            perm_exts(pre.push(x), n, cond),
        ),
        perm_exts_below(pre, n, cond, x as int).disjoint(perm_exts(pre.push(x), n, cond)),
{
    let k = pre.len() as int;
    assert(is_partial_perm(pre.push(x), n)) by {
        assert(forall|i: int| 0 <= i < pre.len() ==> pre.push(x)[i] == pre[i]);
        assert(pre.push(x)[k] == x);
    }
    assert forall|p: Seq<usize>| #[trigger] perm_exts(pre.push(x), n, cond).contains(p) implies
        p.take(k) == pre && p[k] == x by {
        assert(p.take(k + 1)[k] == p[k]);
        assert(p.take(k + 1)[k] == pre.push(x)[k]);
        assert(p.take(k) =~= pre) by {
            assert forall|i: int| 0 <= i < k implies p.take(k)[i] == pre[i] by {
                assert(p.take(k + 1)[i] == pre.push(x)[i]);
            }
        }
    }
    assert forall|p: Seq<usize>|
        is_perm(p, n) && p.take(k) == pre && cond(p) && p[k] == x implies #[trigger] perm_exts(
        pre.push(x),
        n,
        cond,
    ).contains(p) by {
        assert(p.take(k + 1) =~= pre.push(x)) by {
            assert forall|i: int| 0 <= i < k + 1 implies p.take(k + 1)[i] == pre.push(x)[i] by {
                if i < k {
                    assert(p.take(k)[i] == pre[i]);
                }
            }
        }
    }
    assert(perm_exts_below(pre, n, cond, x + 1) =~= perm_exts_below(pre, n, cond, x as int).union(
        perm_exts(pre.push(x), n, cond),
    ));
    assert forall|p: Seq<usize>|
        !(perm_exts_below(pre, n, cond, x as int).contains(p) && perm_exts(
            pre.push(x),
            n,
            cond,
        ).contains(p)) by {}
    assert(perm_exts_below(pre, n, cond, x as int).disjoint(perm_exts(pre.push(x), n, cond)));
}

/// Every extension chooses a position below `n` next.
pub proof fn lemma_exts_below_full(pre: Seq<usize>, n: nat, cond: spec_fn(Seq<usize>) -> bool)
    requires
        is_partial_perm(pre, n),
        pre.len() < n,
    ensures
        perm_exts_below(pre, n, cond, n as int) == perm_exts(pre, n, cond),
{
    assert(perm_exts_below(pre, n, cond, n as int) =~= perm_exts(pre, n, cond));
}

/// How many of the positions below `x` the prefix leaves free.
pub open spec fn unused_below(pre: Seq<usize>, x: int) -> nat
    decreases x,
{
    if x <= 0 {
        0
    } else {
        unused_below(pre, x - 1) + if pre.contains(((x - 1) as usize)) {
            0nat
        } else {
            1nat
        }
    }
}

/// The positions below `x`, as a set.
pub open spec fn positions_below(x: int) -> Set<usize> {
    Set::new(|u: usize| (u as int) < x)
}

proof fn lemma_unused_intersect(pre: Seq<usize>, x: int)
    requires
        0 <= x <= usize::MAX,
    ensures
        pre.to_set().intersect(positions_below(x)).finite(),
        unused_below(pre, x) + pre.to_set().intersect(positions_below(x)).len() == x,
    decreases x,
{
    broadcast use vstd::set_lib::lemma_set_subset_finite;

    range_set_properties::<usize>(0, x as usize);
    assert(positions_below(x) =~= Set::<usize>::range(0, x as usize));
    let ix = pre.to_set().intersect(positions_below(x));
    assert(ix.subset_of(positions_below(x)));
    if x == 0 {
        assert(ix =~= Set::<usize>::empty());
    } else {
        lemma_unused_intersect(pre, x - 1);
        let prev = pre.to_set().intersect(positions_below(x - 1));
        let xm = (x - 1) as usize;
        if pre.contains(xm) {
            assert(ix =~= prev.insert(xm));
            assert(!prev.contains(xm));
            assert(ix.len() == prev.len() + 1);
        } else {
            assert(ix =~= prev);
        }
    }
}

/// A prefix of `k` distinct positions below `n` leaves exactly `n - k` free.
pub proof fn lemma_unused_total(pre: Seq<usize>, n: nat)
    requires
        is_partial_perm(pre, n),
        n <= usize::MAX,
    ensures
        unused_below(pre, n as int) + pre.len() == n,
{
    lemma_unused_intersect(pre, n as int);
    assert(pre.to_set().intersect(positions_below(n as int)) =~= pre.to_set());
    assert(pre.no_duplicates());
    pre.unique_seq_to_set();
}

pub proof fn lemma_unused_mono(pre: Seq<usize>, x: int, y: int)
    requires
        x <= y,
    ensures
        unused_below(pre, x) <= unused_below(pre, y),
    decreases y,
{
    if x < y && y > 0 {
        lemma_unused_mono(pre, x, y - 1);
    }
}

/// There are at most `fact(n - k)` permutations extending a prefix of
/// length `k`, whatever the side condition; in particular the set is finite.
pub proof fn lemma_exts_bound(pre: Seq<usize>, n: nat, cond: spec_fn(Seq<usize>) -> bool)
    requires
        is_partial_perm(pre, n),
        n <= usize::MAX,
    ensures
        perm_exts(pre, n, cond).finite(),
        perm_exts(pre, n, cond).len() <= fact((n - pre.len()) as nat),
    decreases n - pre.len(), n + 1,
{
    if pre.len() == n {
        lemma_exts_base(pre, n, cond);
    } else {
        lemma_exts_below_bound(pre, n, cond, n as int);
        lemma_exts_below_full(pre, n, cond);
        lemma_unused_total(pre, n);
        let m = (n - pre.len() - 1) as nat;
        assert(fact((n - pre.len()) as nat) == (n - pre.len()) * fact(m));
        assert(unused_below(pre, n as int) * fact(m) == (n - pre.len()) * fact(m));
    }
}

/// The extensions choosing a position below `x` number at most one factorial
/// block for each free position below `x`.
pub proof fn lemma_exts_below_bound(
    pre: Seq<usize>,
    n: nat,
    cond: spec_fn(Seq<usize>) -> bool,
    x: int,
)
    requires
        is_partial_perm(pre, n),
        pre.len() < n,
        n <= usize::MAX,
        0 <= x <= n,
    ensures
        perm_exts_below(pre, n, cond, x).finite(),
        perm_exts_below(pre, n, cond, x).len() <= unused_below(pre, x) * fact(
            (n - pre.len() - 1) as nat,
        ),
    decreases n - pre.len(), x,
{
    let m = (n - pre.len() - 1) as nat;
    if x == 0 {
        lemma_exts_below_zero(pre, n, cond);
    } else {
        lemma_exts_below_bound(pre, n, cond, x - 1);
        let xm = (x - 1) as usize;
        if pre.contains(xm) {
            lemma_exts_below_used(pre, n, cond, xm);
            lemma_unused_mono(pre, x - 1, x);
            assert(unused_below(pre, x - 1) * fact(m) <= unused_below(pre, x) * fact(m))
                by (nonlinear_arith)
                requires
                    unused_below(pre, x - 1) <= unused_below(pre, x),
                    fact(m) >= 0,
            ;
        } else {
            lemma_exts_below_step(pre, n, cond, xm);
            lemma_exts_bound(pre.push(xm), n, cond);
            let a = perm_exts_below(pre, n, cond, x - 1);
            let b = perm_exts(pre.push(xm), n, cond);
            lemma_len_union(a, b);
            assert(a.intersect(b) =~= Set::<Seq<usize>>::empty());
            assert(unused_below(pre, x) == unused_below(pre, x - 1) + 1);
            assert((unused_below(pre, x - 1) + 1) * fact(m) == unused_below(pre, x - 1) * fact(m)
                + fact(m)) by (nonlinear_arith);
        }
    }
}

/// Every value below `n` appears in a permutation of `n` positions.
pub proof fn lemma_perm_surjective(q: Seq<usize>, n: nat, v: usize)
    requires
        is_perm(q, n),
        n <= usize::MAX,
        v < n,
    ensures
        exists|j: int| 0 <= j < q.len() && q[j] == v,
{
    assert(q.no_duplicates());
    q.unique_seq_to_set();
    let r = Set::<usize>::range(0, n as usize);
    range_set_properties::<usize>(0, n as usize);
    assert(q.to_set().subset_of(r));
    lemma_subset_equality(q.to_set(), r);
    assert(r.contains(v));
    assert(q.to_set().contains(v));
    assert(q.contains(v));
}

/// The inverse rearrangement of a permutation.
pub open spec fn perm_inverse(q: Seq<usize>, n: nat) -> Seq<usize> {
    Seq::new(
        n,
        |i: int| (choose|j: int| 0 <= j < q.len() && q[j] == i as usize) as usize,
    )
}

pub proof fn lemma_perm_inverse(q: Seq<usize>, n: nat)
    requires
        is_perm(q, n),
        n <= usize::MAX,
    ensures
        is_perm(perm_inverse(q, n), n),
        forall|i: int|
            0 <= i < n ==> q[#[trigger] perm_inverse(q, n)[i] as int] == i as usize,
        forall|j: int| 0 <= j < n ==> perm_inverse(q, n)[#[trigger] q[j] as int] == j as usize,
{
    let inv = perm_inverse(q, n);
    assert forall|i: int| 0 <= i < n implies (#[trigger] inv[i]) < n && q[inv[i] as int] == i
        as usize by {
        lemma_perm_surjective(q, n, i as usize);
        let j = choose|j: int| 0 <= j < q.len() && q[j] == i as usize;
        assert(inv[i] == j as usize);
    }
    assert forall|i: int, j: int| 0 <= i < j < n implies inv[i] != inv[j] by {
        assert(q[inv[i] as int] == i as usize);
        assert(q[inv[j] as int] == j as usize);
    }
    assert forall|j: int| 0 <= j < n implies inv[#[trigger] q[j] as int] == j as usize by {
        let i = q[j] as int;
        assert(q[inv[i] as int] == q[j]);
        let a = inv[i] as int;
        if a != j {
            if a < j {
                assert(q[a] != q[j]);
            } else {
                assert(q[j] != q[a]);
            }
        }
    }
}

/// Composition of rearrangements: first `p` picks, then `q` relabels.
pub open spec fn perm_compose(q: Seq<usize>, p: Seq<usize>) -> Seq<usize> {
    Seq::new(p.len(), |i: int| q[p[i] as int])
}

pub proof fn lemma_compose_is_perm(q: Seq<usize>, p: Seq<usize>, n: nat)
    requires
        is_perm(q, n),
        is_perm(p, n),
    ensures
        is_perm(perm_compose(q, p), n),
{
    let c = perm_compose(q, p);
    assert forall|i: int, j: int| 0 <= i < j < n implies c[i] != c[j] by {
        assert(p[i] != p[j]);
        if p[i] < p[j] {
            assert(q[p[i] as int] != q[p[j] as int]);
        } else {
            assert(q[p[j] as int] != q[p[i] as int]);
        }
    }
}

/// Rearranging by `p` after rearranging by `q` is rearranging by the
/// composition.
pub proof fn lemma_apply_compose<T>(q: Seq<usize>, p: Seq<usize>, s: Seq<T>, n: nat)
    requires
        is_perm(q, n),
        is_perm(p, n),
        s.len() == n,
    ensures
        apply_perm(p, apply_perm(q, s)) == apply_perm(perm_compose(q, p), s),
{
    assert(apply_perm(p, apply_perm(q, s)) =~= apply_perm(perm_compose(q, p), s));
}

/// Conditions carried into each other by composition with a fixed
/// permutation select equally many permutations.
pub proof fn lemma_exts_bijection(
    n: nat,
    q: Seq<usize>,
    cond1: spec_fn(Seq<usize>) -> bool,
    cond2: spec_fn(Seq<usize>) -> bool,
)
    requires
        is_perm(q, n),
        n <= usize::MAX,
        forall|p: Seq<usize>| is_perm(p, n) ==> (#[trigger] cond1(p) <==> cond2(perm_compose(q, p))),
    ensures
        perm_exts(Seq::<usize>::empty(), n, cond1).len() == perm_exts(
            Seq::<usize>::empty(),
            n,
            cond2,
        ).len(),
{
    let a = perm_exts(Seq::<usize>::empty(), n, cond1);
    let b = perm_exts(Seq::<usize>::empty(), n, cond2);
    let f = |p: Seq<usize>| perm_compose(q, p);
    lemma_perm_inverse(q, n);
    let inv = perm_inverse(q, n);
    assert forall|p: Seq<usize>| a.contains(p) implies b.contains(f(p)) by {
        lemma_compose_is_perm(q, p, n);
        assert(perm_compose(q, p).take(0) =~= Seq::<usize>::empty());
        assert(p.take(0) =~= Seq::<usize>::empty());
    }
    assert forall|r: Seq<usize>| b.contains(r) implies a.map(f).contains(r) by {
        let p = perm_compose(inv, r);
        lemma_compose_is_perm(inv, r, n);
        assert(perm_compose(q, p) =~= r) by {
            assert forall|i: int| 0 <= i < n implies perm_compose(q, p)[i] == r[i] by {
                assert(p[i] == inv[r[i] as int]);
                assert(q[inv[r[i] as int] as int] == r[i]);
            }
        }
        assert(cond1(p) <==> cond2(r));
        assert(p.take(0) =~= Seq::<usize>::empty());
        assert(r.take(0) =~= Seq::<usize>::empty());
        assert(a.contains(p));
        assert(f(p) == r);
    }
    assert(a.map(f) =~= b) by {
        assert forall|r: Seq<usize>| a.map(f).contains(r) implies b.contains(r) by {
            let p = choose|p: Seq<usize>| a.contains(p) && f(p) == r;
            assert(b.contains(f(p)));
        }
    }
    assert(injective_on(f, a)) by {
        assert forall|p1: Seq<usize>, p2: Seq<usize>|
            #![trigger a.contains(p1), a.contains(p2)]
            a.contains(p1) && a.contains(p2) && f(p1) == f(p2) implies p1 == p2 by {
            assert forall|i: int| 0 <= i < n implies p1[i] == p2[i] by {
                assert(perm_compose(q, p1)[i] == perm_compose(q, p2)[i]);
                assert(q[p1[i] as int] == q[p2[i] as int]);
                if p1[i] != p2[i] {
                    if p1[i] < p2[i] {
                        assert(q[p1[i] as int] != q[p2[i] as int]);
                    } else {
                        assert(q[p2[i] as int] != q[p1[i] as int]);
                    }
                }
            }
            assert(p1 =~= p2);
        }
    }
    lemma_exts_bound(Seq::<usize>::empty(), n, cond1);
    lemma_map_size(a, b, f);
}

} // verus!
