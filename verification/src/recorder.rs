//! The record store: the in-memory SI-to-size catalogue.  The store decides
//! membership and improvement; each insertion also yields the formatted line
//! that belongs in the append-only record file.

use vstd::prelude::*;
use std::collections::HashMap;
use crate::{Point, spec_size_of_steps, size_of_steps, MAX_COORD, MAX_STEPS};
use crate::parser::{Record, spec_format_record, format_record};

verus! {

broadcast use vstd::std_specs::hash::group_hash_axioms;

/// Steps small enough that their size is representable.
pub open spec fn size_in_range(s: Seq<Point<i32>>) -> bool {
    &&& s.len() <= MAX_STEPS
    &&& forall|i: int|
        0 <= i < s.len() ==> -MAX_COORD <= (#[trigger] s[i]).x <= MAX_COORD && -MAX_COORD
            <= s[i].y <= MAX_COORD
}

pub proof fn lemma_size_in_range_bound(s: Seq<Point<i32>>)
    requires
        size_in_range(s),
    ensures
        spec_size_of_steps(s) <= s.len() * 0x8_0000_0000_0000,
        spec_size_of_steps(s) <= 0x6_0000_0000_0000_0,
    decreases s.len(),
{
    let b: int = 0x8_0000_0000_0000;
    if s.len() > 0 {
        assert forall|i: int|
            0 <= i < s.drop_last().len() implies -MAX_COORD <= (#[trigger] s.drop_last()[
        i]).x <= MAX_COORD && -MAX_COORD <= s.drop_last()[i].y <= MAX_COORD by {
            assert(s.drop_last()[i] == s[i]);
        }
        lemma_size_in_range_bound(s.drop_last());
        assert(s.last() == s[s.len() - 1]);
        assert(0 <= s.last().x * s.last().x <= 0x4_0000_0000_0000) by (nonlinear_arith)
            requires
                -0x200_0000 <= s.last().x <= 0x200_0000,
        ;
        assert(0 <= s.last().y * s.last().y <= 0x4_0000_0000_0000) by (nonlinear_arith)
            requires
                -0x200_0000 <= s.last().y <= 0x200_0000,
        ;
        let l = s.len() as int;
        assert((l - 1) * b + b == l * b) by (nonlinear_arith);
        assert(l * b <= 12 * b) by (nonlinear_arith)
            requires
                0 <= l <= 12,
                b > 0,
        ;
    } else {
        assert(s.len() * b == 0) by (nonlinear_arith)
            requires
                s.len() == 0,
        ;
    }
}

/// The catalogue a sequence of records builds up: later records overwrite
/// earlier ones with the same SI; records without steps add nothing.
pub open spec fn catalogue_of(rs: Seq<Record>) -> Map<u32, u64>
    decreases rs.len(),
{
    if rs.len() == 0 {
        Map::empty()
    } else {
        let m = catalogue_of(rs.drop_last());
        match rs.last()@.1 {
            Option::None => m,
            Option::Some(v) => m.insert(rs.last()@.0, spec_size_of_steps(v) as u64),
        }
    }
}

/// The least SI among the step-bearing records, or `u32::MAX` if none.
pub open spec fn min_si_of(rs: Seq<Record>) -> u32
    decreases rs.len(),
{
    if rs.len() == 0 {
        u32::MAX
    } else {
        let m = min_si_of(rs.drop_last());
        match rs.last()@.1 {
            Option::None => m,
            Option::Some(_) => if rs.last()@.0 < m {
                rs.last()@.0
            } else {
                m
            },
        }
    }
}

/// The record store: the search configuration and the SI catalogue.
pub struct Recorder {
    pub n: usize,
    pub closed: bool,
    pub minify: bool,
    si_map: HashMap<u32, u64>,
}

impl View for Recorder {
    type V = Map<u32, u64>;

    closed spec fn view(&self) -> Map<u32, u64> {
        self.si_map@
    }
}

impl Recorder {
    pub closed spec fn cfg_n(self) -> usize {
        self.n
    }

    pub closed spec fn cfg_closed(self) -> bool {
        self.closed
    }

    pub closed spec fn cfg_minify(self) -> bool {
        self.minify
    }

    /// Build the store from the records parsed out of the backing file,
    /// returning it with the least SI seen among step-bearing records.
    pub fn new(n: usize, closed: bool, minify: bool, records: &Vec<Record>) -> (r: Option<
        (Recorder, u32),
    >)
        ensures
            match r {
                Option::Some((rec, min_si)) => {
                    &&& rec@ == catalogue_of(records@)
                    &&& min_si == min_si_of(records@)
                    &&& rec.cfg_n() == n
                    &&& rec.cfg_closed() == closed
                    &&& rec.cfg_minify() == minify
                    &&& forall|k: int|
                        0 <= k < records@.len() ==> match (#[trigger] records@[k])@.1 {
                            Option::None => true,
                            Option::Some(v) => size_in_range(v),
                        }
                },
                Option::None => exists|k: int|
                    0 <= k < records@.len() && match (#[trigger] records@[k])@.1 {
                        Option::None => false,
                        Option::Some(v) => !size_in_range(v),
                    },
            },
    {
        let mut si_map: HashMap<u32, u64> = HashMap::new();
        let mut min_si: u32 = u32::MAX;
        let m = records.len();
        let mut k: usize = 0;
        proof {
            assert(records@.take(0) =~= Seq::<Record>::empty());
        }
        while k < m
            invariant
                k <= m,
                m == records@.len(),
                si_map@ == catalogue_of(records@.take(k as int)),
                min_si == min_si_of(records@.take(k as int)),
                forall|t: int|
                    0 <= t < k ==> match (#[trigger] records@[t])@.1 {
                        Option::None => true,
                        Option::Some(v) => size_in_range(v),
                    },
            decreases m - k,
        {
            proof {
                assert(records@.take(k as int + 1).drop_last() =~= records@.take(k as int));
                assert(records@.take(k as int + 1).last() == records@[k as int]);
            }
            match &records[k].steps {
                Option::None => {},
                Option::Some(steps) => {
                    if !steps_size_ok(steps) {
                        return Option::None;
                    }
                    proof {
                        lemma_size_in_range_bound(steps@);
                    }
                    let size = size_of_steps(steps);
                    let si = records[k].si;
                    si_map.insert(si, size);
                    if si < min_si {
                        min_si = si;
                    }
                },
            }
            k = k + 1;
        }
        proof {
            assert(records@.take(m as int) =~= records@);
        }
        Option::Some((Recorder { n, closed, minify, si_map }, min_si))
    }

    /// The catalogue already holds this SI.
    pub fn contains(&self, si: u32) -> (r: bool)
        ensures
            r == self@.contains_key(si),
    {
        self.si_map.contains_key(&si)
    }

    /// The catalogue holds this SI with a representative at least as small.
    pub fn contains_smaller(&self, si: u32, size: u64) -> (r: bool)
        ensures
            r == (self@.contains_key(si) && self@[si] <= size),
    {
        match self.si_map.get(&si) {
            Option::Some(x) => *x <= size,
            Option::None => false,
        }
    }

    /// Record `si -> size`, overwriting any earlier entry, and hand back the
    /// record line to append to the backing file.
    pub fn insert(&mut self, si: u32, steps: &Vec<Point<i32>>, size: u64) -> (line: Vec<u8>)
        ensures
            final(self)@ == old(self)@.insert(si, size),
            final(self).cfg_n() == old(self).cfg_n(),
            final(self).cfg_closed() == old(self).cfg_closed(),
            final(self).cfg_minify() == old(self).cfg_minify(),
            line@ == spec_format_record(si, Option::Some(steps@)),
    {
        self.si_map.insert(si, size);
        format_record(si, Option::Some(steps))
    }
}

impl Recorder {
    /// Record `si -> size` only when no representative at least as small is
    /// already stored; the stored size for every SI never grows.
    pub fn insert_if_better(&mut self, si: u32, steps: &Vec<Point<i32>>, size: u64) -> (r:
        Option<Vec<u8>>)
        ensures
            final(self).cfg_n() == old(self).cfg_n(),
            final(self).cfg_closed() == old(self).cfg_closed(),
            final(self).cfg_minify() == old(self).cfg_minify(),
            match r {
                Option::Some(line) => {
                    &&& !(old(self)@.contains_key(si) && old(self)@[si] <= size)
                    &&& final(self)@ == old(self)@.insert(si, size)
                    &&& line@ == spec_format_record(si, Option::Some(steps@))
                },
                Option::None => old(self)@.contains_key(si) && old(self)@[si] <= size
                    && final(self)@ == old(self)@,
            },
            forall|k: u32|
                old(self)@.contains_key(k) ==> final(self)@.contains_key(k) && final(self)@[k]
                    <= #[trigger] old(self)@[k],
    {
        if self.contains_smaller(si, size) {
            return Option::None;
        }
        proof {
            lemma_catalogue_monotone(self@, si, size);
        }
        Option::Some(self.insert(si, steps, size))
    }
}

/// Check that a step sequence is small enough for its size to be computed.
pub fn steps_size_ok(steps: &Vec<Point<i32>>) -> (r: bool)
    ensures
        r == size_in_range(steps@),
{
    let n = steps.len();
    if n > MAX_STEPS {
        return false;
    }
    let mut i: usize = 0;
    while i < n
        invariant
            i <= n,
            n == steps@.len() <= MAX_STEPS,
            forall|k: int|
                0 <= k < i ==> -MAX_COORD <= (#[trigger] steps@[k]).x <= MAX_COORD && -MAX_COORD
                    <= steps@[k].y <= MAX_COORD,
        decreases n - i,
    {
        let p = steps[i];
        if p.x < -MAX_COORD || p.x > MAX_COORD || p.y < -MAX_COORD || p.y > MAX_COORD {
            return false;
        }
        i = i + 1;
    }
    true
}

/// Catalogue monotonicity: inserting only when no representative at least as
/// small is stored never makes any stored size grow.
pub proof fn lemma_catalogue_monotone(m: Map<u32, u64>, si: u32, size: u64)
    requires
        !(m.contains_key(si) && m[si] <= size),
    ensures
        forall|k: u32|
            m.contains_key(k) ==> m.insert(si, size).contains_key(k) && m.insert(si, size)[k]
                <= #[trigger] m[k],
{
}

} // verus!
