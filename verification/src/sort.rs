//! The sorter over a record file's contents: verify every stored record,
//! minify further where possible, drop duplicate SI keys keeping the best
//! representative, and order ascending by SI.

use vstd::prelude::*;
use crate::{Point, wf_steps, sum_x, sum_y, spec_size_of_steps, size_of_steps};
use crate::parser::Record;
use crate::walker::{Walker, spec_si, spec_has_collinear, spec_minify, steps_in_range,
    steps_sum_zero, lemma_wf_unfold, lemma_minify_preserves_si, lemma_minify_noncollinear,
    lemma_minify_idempotent};
use crate::recorder::lemma_size_in_range_bound;

verus! {

/// Why a stored record was found corrupt.
#[derive(Clone, Copy, Debug, PartialEq, Eq, Structural)]
pub enum SortError {
    /// A step sequence of unusable length or out-of-range components.
    BadSteps,
    /// A record of a closed-walk file whose steps do not sum to the origin.
    NotClosed,
    /// A stored representative with collinear steps.
    Collinear,
    /// A stored SI that disagrees with the recomputed one.
    SiMismatch,
}

/// A record passes the sorter's verification.
pub open spec fn rec_pass(rv: (u32, Option<Seq<Point<i32>>>), closed: bool) -> bool {
    match rv.1 {
        Option::None => true,
        Option::Some(v) => {
            &&& wf_steps(v)
            &&& (closed ==> sum_x(v) == 0 && sum_y(v) == 0)
            &&& !spec_has_collinear(v)
            &&& spec_si(v, true, closed) == rv.0
        },
    }
}

/// A record the sorter would store unchanged: it passes verification and is
/// already minified.
pub open spec fn rec_valid(rv: (u32, Option<Seq<Point<i32>>>), closed: bool) -> bool {
    &&& rec_pass(rv, closed)
    &&& match rv.1 {
        Option::None => true,
        Option::Some(v) => v == spec_minify(v, rv.0, closed),
    }
}

/// Strictly ascending by SI, so each SI at most once.
pub open spec fn recs_sorted(rs: Seq<Record>) -> bool {
    forall|i: int, j: int|
        0 <= i < j < rs.len() ==> (#[trigger] rs[i])@.0 < (#[trigger] rs[j])@.0
}

/// What the sorter produces: ascending, every record verified and minified.
pub open spec fn recs_canonical(rs: Seq<Record>, closed: bool) -> bool {
    &&& recs_sorted(rs)
    &&& forall|i: int| 0 <= i < rs.len() ==> rec_valid((#[trigger] rs[i])@, closed)
}

/// The two sequences hold the same records.
pub open spec fn recs_match(a: Seq<Record>, b: Seq<Record>) -> bool {
    a.len() == b.len() && forall|i: int| 0 <= i < a.len() ==> (#[trigger] a[i])@ == b[i]@
}

/// What one input record does to the map of kept representatives: a fresh SI
/// is entered (minified when step-bearing); on a colliding SI a step-bearing
/// record beats a bare one, and of two step-bearing representatives the one
/// of smaller size after minification is kept.
pub open spec fn choose_step(
    m: Map<u32, Option<Seq<Point<i32>>>>,
    rv: (u32, Option<Seq<Point<i32>>>),
    closed: bool,
) -> Map<u32, Option<Seq<Point<i32>>>> {
    let si = rv.0;
    match rv.1 {
        Option::None => if m.contains_key(si) {
            m
        } else {
            m.insert(si, Option::None)
        },
        Option::Some(v) => {
            let mv = spec_minify(v, si, closed);
            if !m.contains_key(si) {
                m.insert(si, Option::Some(mv))
            } else {
                match m[si] {
                    Option::None => m.insert(si, Option::Some(mv)),
                    Option::Some(e) => if spec_size_of_steps(mv) < spec_size_of_steps(e) {
                        m.insert(si, Option::Some(mv))
                    } else {
                        m
                    },
                }
            }
        },
    }
}

/// The representative each SI keeps after all records are folded in, in
/// input order.
pub open spec fn chosen(rs: Seq<Record>, closed: bool) -> Map<u32, Option<Seq<Point<i32>>>>
    decreases rs.len(),
{
    if rs.len() == 0 {
        Map::empty()
    } else {
        choose_step(chosen(rs.drop_last(), closed), rs.last()@, closed)
    }
}

/// Folding in a record never drops an SI, and enters the record's own.
pub proof fn lemma_chosen_has_keys(rs: Seq<Record>, closed: bool, k: int)
    requires
        0 <= k < rs.len(),
    ensures
        chosen(rs, closed).contains_key(rs[k]@.0),
    decreases rs.len(),
{
    let m = chosen(rs.drop_last(), closed);
    if k == rs.len() - 1 {
        assert(rs.last() == rs[k]);
    } else {
        assert(rs.drop_last()[k] == rs[k]);
        lemma_chosen_has_keys(rs.drop_last(), closed, k);
    }
}

/// The output rows mirror a map of kept representatives: each row is an
/// entry, and each entry appears as a row.
pub open spec fn mirrors(out: Seq<Record>, m: Map<u32, Option<Seq<Point<i32>>>>) -> bool {
    &&& forall|j: int|
        0 <= j < out.len() ==> m.contains_key((#[trigger] out[j])@.0) && (out[j])@.1 == m[(
        out[j])@.0]
    &&& forall|si: u32|
        #[trigger] m.contains_key(si) ==> exists|j: int|
            0 <= j < out.len() && (#[trigger] out[j])@.0 == si
}

proof fn lemma_canonical_prefix(rs: Seq<Record>, closed: bool, m: int)
    requires
        recs_canonical(rs, closed),
        0 <= m <= rs.len(),
    ensures
        recs_canonical(rs.take(m), closed),
{
    assert forall|i: int, j: int|
        0 <= i < j < rs.take(m).len() implies (#[trigger] rs.take(m)[i])@.0 < (#[trigger] rs.take(
        m,
    )[j])@.0 by {
        assert(rs.take(m)[i] == rs[i]);
        assert(rs.take(m)[j] == rs[j]);
    }
    assert forall|i: int| 0 <= i < rs.take(m).len() implies rec_valid(
        (#[trigger] rs.take(m)[i])@,
        closed,
    ) by {
        assert(rs.take(m)[i] == rs[i]);
    }
}

fn clone_steps(src: &Vec<Point<i32>>) -> (r: Vec<Point<i32>>)
    ensures
        r@ == src@,
{
    let mut r: Vec<Point<i32>> = Vec::new();
    let n = src.len();
    let mut i: usize = 0;
    while i < n
        invariant
            i <= n,
            n == src@.len(),
            r@ =~= src@.take(i as int),
        decreases n - i,
    {
        r.push(src[i]);
        i = i + 1;
    }
    proof {
        assert(r@ =~= src@);
    }
    r
}

/// Verify one stored step sequence against its SI and minify it further.
fn verify_and_minify(walker: &mut Walker, steps: &Vec<Point<i32>>, si: u32, closed: bool) -> (r:
    Result<(Vec<Point<i32>>, bool), SortError>)
    requires
        old(walker).wf(),
        old(walker).spec_closed() == closed,
    ensures
        final(walker).wf(),
        final(walker).spec_closed() == closed,
        match r {
            Result::Ok((v2, ch)) => {
                &&& rec_pass((si, Option::Some(steps@)), closed)
                &&& rec_valid((si, Option::Some(v2@)), closed)
                &&& v2@ == spec_minify(steps@, si, closed)
                &&& ch == (spec_minify(steps@, si, closed) != steps@)
                &&& (!ch ==> v2@ == steps@)
            },
            Result::Err(_) => !rec_pass((si, Option::Some(steps@)), closed),
        },
{
    if !steps_in_range(steps) {
        return Result::Err(SortError::BadSteps);
    }
    if closed && !steps_sum_zero(steps) {
        return Result::Err(SortError::NotClosed);
    }
    walker.load_steps(steps);
    if walker.has_collinear_steps() {
        return Result::Err(SortError::Collinear);
    }
    let si_m = walker.simpleness_index(true);
    if si_m != si {
        return Result::Err(SortError::SiMismatch);
    }
    let ghost pre = walker.steps_view();
    let ch = walker.minify_steps(si);
    proof {
        lemma_minify_preserves_si(pre, si, closed);
        lemma_minify_noncollinear(pre, si, closed);
        lemma_minify_idempotent(pre, si, closed);
        lemma_wf_unfold(*walker);
    }
    let v2 = clone_steps(walker.steps());
    Result::Ok((v2, ch))
}

/// Put one verified record into the sorted output, applying the collision
/// policy of `choose_step`.  Returns whether the SI was already present.
#[verifier::rlimit(100)]
fn place_record(
    out: &mut Vec<Record>,
    rec_si: u32,
    new_steps: Option<Vec<Point<i32>>>,
    closed: bool,
    Ghost(rv): Ghost<(u32, Option<Seq<Point<i32>>>)>,
    Ghost(m0): Ghost<Map<u32, Option<Seq<Point<i32>>>>>,
) -> (dup: bool)
    requires
        recs_canonical(old(out)@, closed),
        mirrors(old(out)@, m0),
        rv.0 == rec_si,
        match (rv.1, new_steps) {
            (Option::None, Option::None) => true,
            (Option::Some(v), Option::Some(ref v2)) => v2@ == spec_minify(v, rec_si, closed)
                && rec_valid((rec_si, Option::Some(v2@)), closed),
            _ => false,
        },
    ensures
        recs_canonical(final(out)@, closed),
        mirrors(final(out)@, choose_step(m0, rv, closed)),
        dup == m0.contains_key(rec_si),
        !dup ==> exists|pos: int|
            0 <= pos <= old(out)@.len() && final(out)@.len() == old(out)@.len() + 1 && (
            #[trigger] final(out)@[pos])@.0 == rec_si && (forall|j: int|
                0 <= j < pos ==> final(out)@[j] == old(out)@[j]) && (forall|j: int|
                pos < j < final(out)@.len() ==> final(out)@[j] == old(out)@[j - 1]) && (
            forall|j: int| 0 <= j < pos ==> (#[trigger] old(out)@[j])@.0 < rec_si) && (forall|
                j: int,
            | pos <= j < old(out)@.len() ==> (#[trigger] old(out)@[j])@.0 > rec_si),
{
    let ghost m1 = choose_step(m0, rv, closed);
    // Find where this SI belongs in the sorted output.
    let mut pos: usize = 0;
    while pos < out.len() && out[pos].si < rec_si
        invariant
            pos <= out@.len(),
            out@ == old(out)@,
            recs_canonical(out@, closed),
            forall|t: int| 0 <= t < pos ==> (#[trigger] out@[t])@.0 < rec_si,
        decreases out@.len() - pos,
    {
        pos = pos + 1;
    }
    if pos < out.len() && out[pos].si == rec_si {
        // A duplicate key: keep the smaller representative, and a
        // step-bearing record beats a bare one.
        proof {
            assert(m0.contains_key(rec_si));
            assert(m0[rec_si] == out@[pos as int]@.1);
        }
        match new_steps {
            Option::None => {
                proof {
                    assert(m1 == m0);
                }
            },
            Option::Some(v2) => {
                let replace = match &out[pos].steps {
                    Option::None => true,
                    Option::Some(ex) => {
                        proof {
                            assert(rec_valid(out@[pos as int]@, closed));
                            lemma_size_in_range_bound(ex@);
                            lemma_size_in_range_bound(v2@);
                        }
                        let se = size_of_steps(ex);
                        let sn = size_of_steps(&v2);
                        sn < se
                    },
                };
                if replace {
                    let ghost out0 = out@;
                    out[pos] = Record { si: rec_si, steps: Option::Some(v2) };
                    proof {
                        assert(m1 == m0.insert(rec_si, out@[pos as int]@.1));
                        assert forall|i: int, j: int|
                            0 <= i < j < out@.len() implies (#[trigger] out@[i])@.0 < (
                        #[trigger] out@[j])@.0 by {
                            if i != pos {
                                assert(out@[i] == out0[i]);
                            }
                            if j != pos {
                                assert(out@[j] == out0[j]);
                            }
                        }
                        assert forall|i: int| 0 <= i < out@.len() implies rec_valid(
                            (#[trigger] out@[i])@,
                            closed,
                        ) by {
                            if i != pos {
                                assert(out@[i] == out0[i]);
                            }
                        }
                        assert forall|i: int|
                            0 <= i < out@.len() implies m1.contains_key(
                            (#[trigger] out@[i])@.0,
                        ) && (out@[i])@.1 == m1[(out@[i])@.0] by {
                            if i != pos {
                                assert(out@[i] == out0[i]);
                                assert(out0[i]@.0 != rec_si);
                            }
                        }
                        assert forall|si: u32| #[trigger] m1.contains_key(si) implies exists|
                            j: int,
                        | 0 <= j < out@.len() && (#[trigger] out@[j])@.0 == si by {
                            if si == rec_si {
                                assert((out@[pos as int])@.0 == si);
                            } else {
                                assert(m0.contains_key(si));
                                let j = choose|j: int|
                                    0 <= j < out0.len() && (#[trigger] out0[j])@.0 == si;
                                assert((out@[j])@.0 == si);
                            }
                        }
                    }
                } else {
                    proof {
                        assert(m1 == m0);
                    }
                }
            },
        }
        true
    } else {
        // A fresh key: insert at its sorted position.
        let ghost out0 = out@;
        proof {
            assert forall|j: int|
                pos <= j < out0.len() implies (#[trigger] out0[j])@.0 > rec_si by {
                if j > pos {
                    assert(out0[pos as int]@.0 < out0[j]@.0);
                }
            }
            assert(!m0.contains_key(rec_si)) by {
                if m0.contains_key(rec_si) {
                    let j = choose|j: int|
                        0 <= j < out0.len() && (#[trigger] out0[j])@.0 == rec_si;
                }
            }
        }
        out.insert(pos, Record { si: rec_si, steps: new_steps });
        proof {
            assert(out@[pos as int]@.0 == rec_si);
            assert(m1 == m0.insert(rec_si, out@[pos as int]@.1));
            assert forall|i: int, j: int|
                0 <= i < j < out@.len() implies (#[trigger] out@[i])@.0 < (#[trigger] out@[j])@.0
                by {
                if i < pos && j == pos {
                    assert(out@[i] == out0[i]);
                } else if i == pos && j > pos {
                    assert(out@[j] == out0[j - 1]);
                } else if i < pos && j > pos {
                    assert(out@[i] == out0[i]);
                    assert(out@[j] == out0[j - 1]);
                } else if i > pos && j > pos {
                    assert(out@[i] == out0[i - 1]);
                    assert(out@[j] == out0[j - 1]);
                } else {
                    assert(i < pos && j < pos);
                    assert(out@[i] == out0[i]);
                    assert(out@[j] == out0[j]);
                }
            }
            assert forall|i: int| 0 <= i < out@.len() implies rec_valid(
                (#[trigger] out@[i])@,
                closed,
            ) by {
                if i < pos {
                    assert(out@[i] == out0[i]);
                } else if i > pos {
                    assert(out@[i] == out0[i - 1]);
                }
            }
            assert forall|i: int|
                0 <= i < out@.len() implies m1.contains_key((#[trigger] out@[i])@.0) && (
            out@[i])@.1 == m1[(out@[i])@.0] by {
                if i < pos {
                    assert(out@[i] == out0[i]);
                    assert(out0[i]@.0 != rec_si);
                } else if i > pos {
                    assert(out@[i] == out0[i - 1]);
                    assert(out0[i - 1]@.0 != rec_si);
                }
            }
            assert forall|si: u32| #[trigger] m1.contains_key(si) implies exists|j: int|
                0 <= j < out@.len() && (#[trigger] out@[j])@.0 == si by {
                if si == rec_si {
                    assert((out@[pos as int])@.0 == si);
                } else {
                    assert(m0.contains_key(si));
                    let j = choose|j: int| 0 <= j < out0.len() && (#[trigger] out0[j])@.0 == si;
                    if j < pos {
                        assert((out@[j])@.0 == si);
                    } else {
                        assert((out@[j + 1])@.0 == si);
                    }
                }
            }
        }
        false
    }
}

/// Verify, minify, deduplicate and sort one file's records.  Returns the
/// sorted records and whether anything changed; fails on the first corrupt
/// record.  The output holds exactly one record per input SI — the kept
/// representative of `chosen` — and run on its own output the sorter reports
/// no change: sorting is idempotent.
#[verifier::rlimit(100)]
pub fn sort_records(records: &Vec<Record>, closed: bool) -> (r: Result<
    (Vec<Record>, bool),
    SortError,
>)
    ensures
        match r {
            Result::Ok(res) => {
                &&& recs_canonical(res.0@, closed)
                &&& mirrors(res.0@, chosen(records@, closed))
                &&& forall|t: int|
                    0 <= t < records@.len() ==> exists|j: int|
                        0 <= j < res.0@.len() && (#[trigger] res.0@[j])@.0 == (
                        #[trigger] records@[t])@.0
                &&& forall|k: int|
                    0 <= k < records@.len() ==> rec_pass((#[trigger] records@[k])@, closed)
                &&& (!res.1 ==> recs_match(res.0@, records@))
                &&& (recs_canonical(records@, closed) ==> !res.1)
            },
            Result::Err(_) => exists|k: int|
                0 <= k < records@.len() && !rec_pass((#[trigger] records@[k])@, closed),
        },
{
    let mut walker = Walker::new(3, closed);
    let mut out: Vec<Record> = Vec::new();
    let mut changed = false;
    let mut have_last = false;
    let mut last_si: u32 = 0;
    let m = records.len();
    let mut k: usize = 0;
    proof {
        assert(records@.take(0) =~= Seq::<Record>::empty());
        assert(chosen(records@.take(0), closed) =~= Map::<u32, Option<Seq<Point<i32>>>>::empty());
    }
    while k < m
        invariant
            k <= m,
            m == records@.len(),
            walker.wf(),
            walker.spec_closed() == closed,
            recs_canonical(out@, closed),
            mirrors(out@, chosen(records@.take(k as int), closed)),
            forall|t: int| 0 <= t < k ==> rec_pass((#[trigger] records@[t])@, closed),
            !changed ==> recs_match(out@, records@.take(k as int)),
            recs_canonical(records@.take(k as int), closed) ==> !changed,
            have_last <==> k > 0,
            have_last ==> last_si == records@[k as int - 1]@.0,
            !changed && have_last ==> out@.len() > 0 && out@[out@.len() - 1]@.0 == last_si,
        decreases m - k,
    {
        let ghost canon = recs_canonical(records@.take(k as int + 1), closed);
        let ghost m0 = chosen(records@.take(k as int), closed);
        let ghost out_pre = out@;
        proof {
            if canon {
                lemma_canonical_prefix(records@.take(k as int + 1), closed, k as int);
                assert(records@.take(k as int + 1).take(k as int) =~= records@.take(k as int));
                assert(!changed);
            }
            assert(records@.take(k as int + 1)[k as int] == records@[k as int]);
            assert(records@.take(k as int + 1).drop_last() =~= records@.take(k as int));
            assert(records@.take(k as int + 1).last() == records@[k as int]);
        }
        let rec_si = records[k].si;
        let new_steps: Option<Vec<Point<i32>>>;
        let mut minify_changed = false;
        match &records[k].steps {
            Option::None => {
                new_steps = Option::None;
            },
            Option::Some(steps) => {
                match verify_and_minify(&mut walker, steps, rec_si, closed) {
                    Result::Err(e) => {
                        return Result::Err(e);
                    },
                    Result::Ok((v2, ch)) => {
                        minify_changed = ch;
                        proof {
                            if canon && ch {
                                // A canonical record is already minified.
                                assert(rec_valid(records@[k as int]@, closed));
                                assert(false);
                            }
                        }
                        new_steps = Option::Some(v2);
                    },
                }
            },
        }
        let dup = place_record(
            &mut out,
            rec_si,
            new_steps,
            closed,
            Ghost(records@[k as int]@),
            Ghost(m0),
        );
        proof {
            assert(chosen(records@.take(k as int + 1), closed) == choose_step(
                m0,
                records@[k as int]@,
                closed,
            ));
        }
        if dup {
            proof {
                if canon {
                    assert(recs_match(out_pre, records@.take(k as int)));
                    let j = choose|j: int|
                        0 <= j < out_pre.len() && (#[trigger] out_pre[j])@.0 == rec_si;
                    assert(records@.take(k as int)[j]@.0 == rec_si);
                    assert(records@.take(k as int + 1)[j] == records@[j]);
                    assert(false);
                }
            }
            changed = true;
        }
        if minify_changed {
            changed = true;
        }
        if have_last && rec_si <= last_si {
            proof {
                if canon {
                    assert(records@.take(k as int + 1)[k as int - 1] == records@[k as int - 1]);
                    assert(false);
                }
            }
            changed = true;
        }
        proof {
            if !changed {
                // No duplicate, in order, nothing minified: the record went
                // to the end unchanged.
                let pos = choose|pos: int|
                    0 <= pos <= out_pre.len() && out@.len() == out_pre.len() + 1 && (
                    #[trigger] out@[pos])@.0 == rec_si && (forall|j: int|
                        0 <= j < pos ==> out@[j] == out_pre[j]) && (forall|j: int|
                        pos < j < out@.len() ==> out@[j] == out_pre[j - 1]) && (forall|j: int|
                        0 <= j < pos ==> (#[trigger] out_pre[j])@.0 < rec_si) && (forall|j: int|
                        pos <= j < out_pre.len() ==> (#[trigger] out_pre[j])@.0 > rec_si);
                assert(pos == out_pre.len()) by {
                    if pos < out_pre.len() {
                        if have_last {
                            if pos < out_pre.len() - 1 {
                                assert(out_pre[pos]@.0 < out_pre[out_pre.len() - 1]@.0);
                            }
                            assert(out_pre[out_pre.len() - 1]@.0 == last_si);
                            assert(rec_si > last_si);
                            assert(out_pre[pos]@.0 > rec_si);
                            assert(false);
                        } else {
                            assert(out_pre.len() == 0);
                        }
                    }
                }
                assert(out@[pos]@.1 == chosen(records@.take(k as int + 1), closed)[rec_si]);
                assert(out@[pos]@ == records@[k as int]@) by {
                    match records@[k as int]@.1 {
                        Option::None => {},
                        Option::Some(v) => {
                            assert(!minify_changed);
                            assert(spec_minify(v, rec_si, closed) == v);
                        },
                    }
                }
                assert(recs_match(out@, records@.take(k as int + 1))) by {
                    assert forall|i: int| 0 <= i < out@.len() implies (#[trigger] out@[i])@
                        == records@.take(k as int + 1)[i]@ by {
                        if i < out@.len() - 1 {
                            assert(out@[i] == out_pre[i]);
                            assert(records@.take(k as int + 1)[i] == records@[i]);
                            assert(records@.take(k as int)[i] == records@[i]);
                        }
                    }
                }
            }
        }
        have_last = true;
        last_si = rec_si;
        k = k + 1;
    }
    proof {
        assert(records@.take(m as int) =~= records@);
        assert forall|t: int| 0 <= t < records@.len() implies exists|j: int|
            0 <= j < out@.len() && (#[trigger] out@[j])@.0 == (#[trigger] records@[t])@.0 by {
            lemma_chosen_has_keys(records@, closed, t);
        }
    }
    Result::Ok((out, changed))
}

} // verus!
