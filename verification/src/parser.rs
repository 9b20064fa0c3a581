//! The record-line grammar: parsing and formatting of catalogue lines.
//!
//! One record per line, ASCII:
//! ```text
//! record := si [":" " " "{" step ("," step)* "}"]
//! si     := unsigned decimal integer
//! step   := "{" int "," int "}"
//! int    := optional '-' then decimal digits
//! ```
//! Whitespace between tokens is insignificant; a record may also be a bare
//! `si` with no step list.

use vstd::prelude::*;
use crate::Point;

verus! {

/// One catalogue record: an SI value with or without a representative step
/// sequence.
#[derive(Debug, PartialEq, Eq)]
pub struct Record {
    pub si: u32,
    pub steps: Option<Vec<Point<i32>>>,
}

impl View for Record {
    type V = (u32, Option<Seq<Point<i32>>>);

    open spec fn view(&self) -> (u32, Option<Seq<Point<i32>>>) {
        (
            self.si,
            match self.steps {
                Option::None => Option::None,
                Option::Some(ref v) => Option::Some(v@),
            },
        )
    }
}

pub open spec fn is_ws(b: u8) -> bool {
    b == 32 || b == 9
}

pub open spec fn is_digit(b: u8) -> bool {
    48 <= b <= 57
}

/// The first index at or after `i` holding a non-blank byte.
pub open spec fn skip_ws(s: Seq<u8>, i: int) -> int
    decreases s.len() - i,
{
    if 0 <= i < s.len() && is_ws(s[i]) {
        skip_ws(s, i + 1)
    } else {
        i
    }
}

/// The first index at or after `i` holding a non-digit byte.
pub open spec fn digits_end(s: Seq<u8>, i: int) -> int
    decreases s.len() - i,
{
    if 0 <= i < s.len() && is_digit(s[i]) {
        digits_end(s, i + 1)
    } else {
        i
    }
}

/// The value of the decimal digits in `s[i .. j)`.
pub open spec fn digits_val(s: Seq<u8>, i: int, j: int) -> int
    decreases j - i,
{
    if i < j {
        digits_val(s, i, j - 1) * 10 + (s[j - 1] - 48)
    } else {
        0
    }
}

/// Parse an unsigned decimal number fitting `u32` at index `i`.
pub open spec fn spec_parse_u32(s: Seq<u8>, i: int) -> Option<(u32, int)> {
    let j = digits_end(s, i);
    if j == i {
        Option::None
    } else if digits_val(s, i, j) > u32::MAX {
        Option::None
    } else {
        Option::Some((digits_val(s, i, j) as u32, j))
    }
}

/// Parse a signed decimal number fitting `i32` at index `i`.
pub open spec fn spec_parse_i32(s: Seq<u8>, i: int) -> Option<(i32, int)> {
    if 0 <= i < s.len() && s[i] == 45 {
        let j = digits_end(s, i + 1);
        if j == i + 1 {
            Option::None
        } else if digits_val(s, i + 1, j) > 0x8000_0000 {
            Option::None
        } else {
            Option::Some(((-digits_val(s, i + 1, j)) as i32, j))
        }
    } else {
        let j = digits_end(s, i);
        if j == i {
            Option::None
        } else if digits_val(s, i, j) > 0x7fff_ffff {
            Option::None
        } else {
            Option::Some((digits_val(s, i, j) as i32, j))
        }
    }
}

/// Parse one step `{x,y}` at index `i`.
pub open spec fn spec_parse_step(s: Seq<u8>, i: int) -> Option<(Point<i32>, int)> {
    if 0 <= i < s.len() && s[i] == 123 {
        let i1 = skip_ws(s, i + 1);
        match spec_parse_i32(s, i1) {
            Option::None => Option::None,
            Option::Some((x, i2)) => {
                let i3 = skip_ws(s, i2);
                if i3 < s.len() && s[i3] == 44 {
                    let i4 = skip_ws(s, i3 + 1);
                    match spec_parse_i32(s, i4) {
                        Option::None => Option::None,
                        Option::Some((y, i5)) => {
                            let i6 = skip_ws(s, i5);
                            if i6 < s.len() && s[i6] == 125 {
                                Option::Some((Point { x, y }, i6 + 1))
                            } else {
                                Option::None
                            }
                        },
                    }
                } else {
                    Option::None
                }
            },
        }
    } else {
        Option::None
    }
}

/// Parse `("," step)* "}"` at index `i`, the steps already read in `acc`.
pub open spec fn spec_parse_steps_rest(s: Seq<u8>, i: int, acc: Seq<Point<i32>>) -> Option<
    (Seq<Point<i32>>, int),
>
    decreases s.len() - i,
{
    let i0 = skip_ws(s, i);
    if i0 < s.len() && s[i0] == 125 {
        Option::Some((acc, i0 + 1))
    } else if i0 < s.len() && s[i0] == 44 {
        let i1 = skip_ws(s, i0 + 1);
        match spec_parse_step(s, i1) {
            Option::None => Option::None,
            Option::Some((p, i2)) => {
                if i <= i0 && i0 + 1 <= i1 && i1 < i2 <= s.len() {
                    spec_parse_steps_rest(s, i2, acc.push(p))
                } else {
                    Option::None
                }
            },
        }
    } else {
        Option::None
    }
}

/// Parse the step list after its opening `{` at index `i`.
pub open spec fn spec_parse_steps(s: Seq<u8>, i: int) -> Option<(Seq<Point<i32>>, int)> {
    let i0 = skip_ws(s, i);
    if i0 < s.len() && s[i0] == 125 {
        Option::Some((Seq::empty(), i0 + 1))
    } else {
        match spec_parse_step(s, i0) {
            Option::None => Option::None,
            Option::Some((p, i1)) => spec_parse_steps_rest(s, i1, seq![p]),
        }
    }
}

/// Parse one whole record line.
pub open spec fn spec_parse_record(s: Seq<u8>) -> Option<(u32, Option<Seq<Point<i32>>>)> {
    let i0 = skip_ws(s, 0);
    match spec_parse_u32(s, i0) {
        Option::None => Option::None,
        Option::Some((si, j)) => {
            let i1 = skip_ws(s, j);
            if i1 == s.len() {
                Option::Some((si, Option::None))
            } else if s[i1] == 58 {
                let i2 = skip_ws(s, i1 + 1);
                if i2 < s.len() && s[i2] == 123 {
                    match spec_parse_steps(s, i2 + 1) {
                        Option::None => Option::None,
                        Option::Some((steps, i3)) => {
                            if skip_ws(s, i3) == s.len() {
                                Option::Some((si, Option::Some(steps)))
                            } else {
                                Option::None
                            }
                        },
                    }
                } else {
                    Option::None
                }
            } else {
                Option::None
            }
        },
    }
}

proof fn lemma_skip_ws_range(s: Seq<u8>, i: int)
    requires
        0 <= i <= s.len(),
    ensures
        i <= skip_ws(s, i) <= s.len(),
        skip_ws(s, i) < s.len() ==> !is_ws(s[skip_ws(s, i)]),
    decreases s.len() - i,
{
    if i < s.len() && is_ws(s[i]) {
        lemma_skip_ws_range(s, i + 1);
    }
}

proof fn lemma_digits_end_range(s: Seq<u8>, i: int)
    requires
        0 <= i <= s.len(),
    ensures
        i <= digits_end(s, i) <= s.len(),
        digits_end(s, i) < s.len() ==> !is_digit(s[digits_end(s, i)]),
        forall|k: int| i <= k < digits_end(s, i) ==> is_digit(#[trigger] s[k]),
    decreases s.len() - i,
{
    if i < s.len() && is_digit(s[i]) {
        lemma_digits_end_range(s, i + 1);
    }
}

proof fn lemma_digits_val_nonneg(s: Seq<u8>, i: int, j: int)
    requires
        forall|t: int| i <= t < j ==> is_digit(#[trigger] s[t]),
    ensures
        digits_val(s, i, j) >= 0,
    decreases j - i,
{
    if i < j {
        lemma_digits_val_nonneg(s, i, j - 1);
        assert(digits_val(s, i, j - 1) * 10 >= 0) by (nonlinear_arith)
            requires
                digits_val(s, i, j - 1) >= 0,
        ;
        if is_digit(s[j - 1]) {
        }
    }
}

/// The digits' value only grows as more digits are read.
proof fn lemma_digits_val_mono(s: Seq<u8>, i: int, j: int, k: int)
    requires
        i <= j <= k,
        forall|t: int| i <= t < k ==> is_digit(#[trigger] s[t]),
    ensures
        digits_val(s, i, j) <= digits_val(s, i, k),
        digits_val(s, i, j) >= 0,
    decreases k - j,
{
    lemma_digits_val_nonneg(s, i, j);
    if j < k {
        lemma_digits_val_mono(s, i, j, k - 1);
        lemma_digits_val_nonneg(s, i, k - 1);
        assert(digits_val(s, i, k) == digits_val(s, i, k - 1) * 10 + (s[k - 1] - 48));
        assert(digits_val(s, i, k - 1) * 10 >= digits_val(s, i, k - 1)) by (nonlinear_arith)
            requires
                digits_val(s, i, k - 1) >= 0,
        ;
    }
}

/// The first non-blank byte at or after `i`, as an index.
fn skip_blanks(s: &Vec<u8>, i: usize) -> (r: usize)
    requires
        i <= s@.len(),
    ensures
        r as int == skip_ws(s@, i as int),
        i <= r <= s@.len(),
        r < s@.len() ==> !is_ws(s@[r as int]),
{
    let n = s.len();
    let mut k = i;
    while k < n && (s[k] == 32 || s[k] == 9)
        invariant
            i <= k <= n,
            n == s@.len(),
            skip_ws(s@, i as int) == skip_ws(s@, k as int),
        decreases n - k,
    {
        k = k + 1;
    }
    proof {
        lemma_skip_ws_range(s@, k as int);
    }
    k
}

/// The first non-digit byte at or after `i`, as an index.
fn scan_digits(s: &Vec<u8>, i: usize) -> (r: usize)
    requires
        i <= s@.len(),
    ensures
        r as int == digits_end(s@, i as int),
        i <= r <= s@.len(),
{
    let n = s.len();
    let mut k = i;
    while k < n && 48 <= s[k] && s[k] <= 57
        invariant
            i <= k <= n,
            n == s@.len(),
            digits_end(s@, i as int) == digits_end(s@, k as int),
        decreases n - k,
    {
        k = k + 1;
    }
    proof {
        lemma_digits_end_range(s@, k as int);
    }
    k
}

/// Read the decimal digits in `s[i .. j)`; their value, or nothing when it
/// exceeds `cap`.
fn digits_value_capped(s: &Vec<u8>, i: usize, j: usize, cap: u64) -> (r: Option<u64>)
    requires
        i <= j <= s@.len(),
        forall|k: int| i <= k < j ==> is_digit(#[trigger] s@[k]),
        cap <= 0x1_0000_0000,
    ensures
        match r {
            Option::Some(v) => v == digits_val(s@, i as int, j as int) && v <= cap,
            Option::None => digits_val(s@, i as int, j as int) > cap,
        },
{
    let mut acc: u64 = 0;
    let mut k = i;
    let mut over = false;
    while k < j
        invariant
            i <= k <= j <= s@.len(),
            cap <= 0x1_0000_0000,
            forall|t: int| i <= t < j ==> is_digit(#[trigger] s@[t]),
            !over ==> acc == digits_val(s@, i as int, k as int) && acc <= cap,
            over ==> digits_val(s@, i as int, k as int) > cap,
        decreases j - k,
    {
        proof {
            lemma_digits_val_mono(s@, i as int, k as int, k as int + 1);
        }
        if !over {
            let d = s[k];
            let next = acc * 10 + (d - 48) as u64;
            proof {
                assert(acc * 10 <= 0x1_0000_0000 * 10) by (nonlinear_arith)
                    requires
                        0 <= acc <= 0x1_0000_0000,
                ;
            }
            if next > cap {
                over = true;
            } else {
                acc = next;
            }
            proof {
                assert(digits_val(s@, i as int, k as int + 1) == digits_val(
                    s@,
                    i as int,
                    k as int,
                ) * 10 + (s@[k as int] - 48));
            }
        }
        k = k + 1;
    }
    if over {
        Option::None
    } else {
        Option::Some(acc)
    }
}

/// Parse an unsigned number at `i`, mirroring the grammar's `si` token.
fn parse_u32_at(s: &Vec<u8>, i: usize) -> (r: Option<(u32, usize)>)
    requires
        i <= s@.len(),
    ensures
        match r {
            Option::Some((v, j)) => spec_parse_u32(s@, i as int) == Option::Some((v, j as int))
                && j <= s@.len(),
            Option::None => spec_parse_u32(s@, i as int) is None,
        },
{
    let j = scan_digits(s, i);
    if j == i {
        return Option::None;
    }
    proof {
        lemma_digits_end_range(s@, i as int);
    }
    match digits_value_capped(s, i, j, 0xffff_ffff) {
        Option::None => Option::None,
        Option::Some(v) => Option::Some((v as u32, j)),
    }
}

/// Parse a signed number at `i`, mirroring the grammar's `int` token.
fn parse_i32_at(s: &Vec<u8>, i: usize) -> (r: Option<(i32, usize)>)
    requires
        i <= s@.len(),
    ensures
        match r {
            Option::Some((v, j)) => spec_parse_i32(s@, i as int) == Option::Some((v, j as int))
                && i < j <= s@.len(),
            Option::None => spec_parse_i32(s@, i as int) is None,
        },
{
    let n = s.len();
    if i < n && s[i] == 45 {
        let j = scan_digits(s, i + 1);
        if j == i + 1 {
            return Option::None;
        }
        proof {
            lemma_digits_end_range(s@, i as int + 1);
        }
        match digits_value_capped(s, i + 1, j, 0x8000_0000) {
            Option::None => Option::None,
            Option::Some(v) => Option::Some(((-(v as i64)) as i32, j)),
        }
    } else {
        let j = scan_digits(s, i);
        if j == i {
            return Option::None;
        }
        proof {
            lemma_digits_end_range(s@, i as int);
        }
        match digits_value_capped(s, i, j, 0x7fff_ffff) {
            Option::None => Option::None,
            Option::Some(v) => Option::Some((v as i32, j)),
        }
    }
}

/// Parse one `{x,y}` step at `i`.
fn parse_step_at(s: &Vec<u8>, i: usize) -> (r: Option<(Point<i32>, usize)>)
    requires
        i <= s@.len(),
    ensures
        match r {
            Option::Some((p, j)) => spec_parse_step(s@, i as int) == Option::Some((p, j as int))
                && i < j <= s@.len(),
            Option::None => spec_parse_step(s@, i as int) is None,
        },
{
    let n = s.len();
    if !(i < n && s[i] == 123) {
        return Option::None;
    }
    let i1 = skip_blanks(s, i + 1);
    let (x, i2) = match parse_i32_at(s, i1) {
        Option::None => {
            return Option::None;
        },
        Option::Some(v) => v,
    };
    let i3 = skip_blanks(s, i2);
    if !(i3 < n && s[i3] == 44) {
        return Option::None;
    }
    let i4 = skip_blanks(s, i3 + 1);
    let (y, i5) = match parse_i32_at(s, i4) {
        Option::None => {
            return Option::None;
        },
        Option::Some(v) => v,
    };
    let i6 = skip_blanks(s, i5);
    if i6 < n && s[i6] == 125 {
        Option::Some((Point { x, y }, i6 + 1))
    } else {
        Option::None
    }
}

/// Parse the rest of a step list, the opening steps already in `acc`.
fn parse_steps_rest(s: &Vec<u8>, i: usize, acc: &mut Vec<Point<i32>>) -> (r: Option<usize>)
    requires
        i <= s@.len(),
    ensures
        match r {
            Option::Some(j) => spec_parse_steps_rest(s@, i as int, old(acc)@) == Option::Some(
                (final(acc)@, j as int),
            ) && j <= s@.len(),
            Option::None => spec_parse_steps_rest(s@, i as int, old(acc)@) is None,
        },
    decreases s@.len() - i,
{
    let n = s.len();
    let i0 = skip_blanks(s, i);
    if i0 < n && s[i0] == 125 {
        proof {
            assert(spec_parse_steps_rest(s@, i as int, acc@) == Option::Some(
                (acc@, i0 as int + 1),
            ));
        }
        return Option::Some(i0 + 1);
    }
    if !(i0 < n && s[i0] == 44) {
        return Option::None;
    }
    let i1 = skip_blanks(s, i0 + 1);
    match parse_step_at(s, i1) {
        Option::None => Option::None,
        Option::Some((p, i2)) => {
            acc.push(p);
            parse_steps_rest(s, i2, acc)
        },
    }
}

/// Parse a whole record line; accepts the bare-`si` form and the form with a
/// step list, with insignificant whitespace between tokens.
pub fn parse_record_line(line: &Vec<u8>) -> (r: Option<Record>)
    ensures
        match r {
            Option::Some(rec) => spec_parse_record(line@) == Option::Some(rec@),
            Option::None => spec_parse_record(line@) is None,
        },
{
    let n = line.len();
    let i0 = skip_blanks(line, 0);
    let (si, j) = match parse_u32_at(line, i0) {
        Option::None => {
            return Option::None;
        },
        Option::Some(v) => v,
    };
    let i1 = skip_blanks(line, j);
    if i1 == n {
        return Option::Some(Record { si, steps: Option::None });
    }
    if line[i1] != 58 {
        return Option::None;
    }
    let i2 = skip_blanks(line, i1 + 1);
    if !(i2 < n && line[i2] == 123) {
        return Option::None;
    }
    // The step list after its opening brace.
    let i3 = skip_blanks(line, i2 + 1);
    if i3 < n && line[i3] == 125 {
        // An empty list.
        let i4 = skip_blanks(line, i3 + 1);
        if i4 == n {
            proof {
                assert(spec_parse_steps(line@, i2 as int + 1) == Option::Some(
                    (Seq::<Point<i32>>::empty(), i3 as int + 1),
                ));
            }
            return Option::Some(Record { si, steps: Option::Some(Vec::new()) });
        } else {
            return Option::None;
        }
    }
    let (p, i4) = match parse_step_at(line, i3) {
        Option::None => {
            return Option::None;
        },
        Option::Some(v) => v,
    };
    let mut steps: Vec<Point<i32>> = Vec::new();
    steps.push(p);
    proof {
        assert(steps@ =~= seq![p]);
    }
    match parse_steps_rest(line, i4, &mut steps) {
        Option::None => Option::None,
        Option::Some(i5) => {
            let i6 = skip_blanks(line, i5);
            if i6 == n {
                Option::Some(Record { si, steps: Option::Some(steps) })
            } else {
                Option::None
            }
        },
    }
}


/// The decimal digits of `v`, most significant first.
pub open spec fn dec_digits(v: nat) -> Seq<u8>
    decreases v,
{
    if v < 10 {
        seq![(48 + v) as u8]
    } else {
        dec_digits(v / 10).push((48 + v % 10) as u8)
    }
}

/// A signed integer as bytes: an optional minus sign, then digits.
pub open spec fn int_bytes(x: int) -> Seq<u8> {
    if x < 0 {
        seq![45u8] + dec_digits((-x) as nat)
    } else {
        dec_digits(x as nat)
    }
}

/// One step as bytes: `{x,y}`.
pub open spec fn step_bytes(p: Point<i32>) -> Seq<u8> {
    seq![123u8] + int_bytes(p.x as int) + seq![44u8] + int_bytes(p.y as int) + seq![125u8]
}

/// A step list's items, comma separated (no surrounding braces).
pub open spec fn steps_items(v: Seq<Point<i32>>) -> Seq<u8>
    decreases v.len(),
{
    if v.len() == 0 {
        Seq::empty()
    } else if v.len() == 1 {
        step_bytes(v[0])
    } else {
        steps_items(v.drop_last()) + seq![44u8] + step_bytes(v.last())
    }
}

/// A whole record line (without the line terminator).
pub open spec fn spec_format_record(si: u32, steps: Option<Seq<Point<i32>>>) -> Seq<u8> {
    match steps {
        Option::None => dec_digits(si as nat),
        Option::Some(v) => dec_digits(si as nat) + seq![58u8, 32u8, 123u8] + steps_items(v)
            + seq![125u8],
    }
}

fn push_u32_digits(out: &mut Vec<u8>, v: u32)
    ensures
        final(out)@ == old(out)@ + dec_digits(v as nat),
    decreases v,
{
    if v < 10 {
        out.push(48 + v as u8);
        proof {
            assert(final(out)@ =~= old(out)@ + dec_digits(v as nat));
        }
    } else {
        push_u32_digits(out, v / 10);
        out.push(48 + (v % 10) as u8);
        proof {
            assert((48 + (v % 10) as u8) as u8 == (48 + (v as nat) % 10) as u8);
            assert(final(out)@ =~= old(out)@ + dec_digits(v as nat));
        }
    }
}

fn push_i32(out: &mut Vec<u8>, x: i32)
    ensures
        final(out)@ == old(out)@ + int_bytes(x as int),
{
    if x < 0 {
        out.push(45);
        let m = (-(x as i64)) as u32;
        push_u32_digits(out, m);
        proof {
            assert(m as nat == (-(x as int)) as nat);
            assert(final(out)@ =~= old(out)@ + int_bytes(x as int));
        }
    } else {
        push_u32_digits(out, x as u32);
    }
}

fn push_step(out: &mut Vec<u8>, p: Point<i32>)
    ensures
        final(out)@ == old(out)@ + step_bytes(p),
{
    out.push(123);
    push_i32(out, p.x);
    out.push(44);
    push_i32(out, p.y);
    out.push(125);
    proof {
        assert(final(out)@ =~= old(out)@ + step_bytes(p));
    }
}

/// A step sequence wrapped for formatting: its text is the braced,
/// comma-separated step list of the record grammar.
pub struct Steps<'a>(pub &'a Vec<Point<i32>>);

impl<'a> Steps<'a> {
    /// The step list as bytes: `{{x,y},...}`.
    pub fn to_bytes(&self) -> (out: Vec<u8>)
        ensures
            out@ == seq![123u8] + steps_items(self.0@) + seq![125u8],
    {
        let mut out: Vec<u8> = Vec::new();
        out.push(123);
        let ghost head = seq![123u8];
        proof {
            assert(out@ =~= head);
            assert(steps_items(self.0@.take(0)) =~= Seq::<u8>::empty());
            assert(out@ =~= head + steps_items(self.0@.take(0)));
        }
        let v = self.0;
        let n = v.len();
        let mut i: usize = 0;
        while i < n
            invariant
                i <= n,
                n == v@.len(),
                v == self.0,
                head == seq![123u8],
                out@ == head + steps_items(v@.take(i as int)),
            decreases n - i,
        {
            if i != 0 {
                out.push(44);
            }
            push_step(&mut out, v[i]);
            proof {
                assert(v@.take(i as int + 1).drop_last() =~= v@.take(i as int));
                assert(v@.take(i as int + 1).last() == v@[i as int]);
                if i == 0 {
                    assert(v@.take(1).len() == 1);
                    assert(v@.take(1)[0] == v@[0]);
                    assert(out@ =~= head + steps_items(v@.take(1)));
                } else {
                    assert(steps_items(v@.take(i as int + 1)) == steps_items(v@.take(i as int))
                        + seq![44u8] + step_bytes(v@[i as int]));
                    assert(out@ =~= head + steps_items(v@.take(i as int + 1)));
                }
            }
            i = i + 1;
        }
        out.push(125);
        proof {
            assert(v@.take(n as int) =~= v@);
            assert(out@ =~= seq![123u8] + steps_items(self.0@) + seq![125u8]);
        }
        out
    }
}

/// Format one record as a line of the record file grammar.
pub fn format_record(si: u32, steps: Option<&Vec<Point<i32>>>) -> (out: Vec<u8>)
    ensures
        out@ == spec_format_record(
            si,
            match steps {
                Option::None => Option::None,
                Option::Some(v) => Option::Some(v@),
            },
        ),
{
    let mut out: Vec<u8> = Vec::new();
    push_u32_digits(&mut out, si);
    match steps {
        Option::None => {},
        Option::Some(v) => {
            out.push(58);
            out.push(32);
            out.push(123);
            let ghost head = dec_digits(si as nat) + seq![58u8, 32u8, 123u8];
            proof {
                assert(out@ =~= head);
                assert(steps_items(v@.take(0)) =~= Seq::<u8>::empty());
                assert(out@ =~= head + steps_items(v@.take(0)));
            }
            let n = v.len();
            let mut i: usize = 0;
            while i < n
                invariant
                    i <= n,
                    n == v@.len(),
                    head == dec_digits(si as nat) + seq![58u8, 32u8, 123u8],
                    out@ == head + steps_items(v@.take(i as int)),
                decreases n - i,
            {
                if i != 0 {
                    out.push(44);
                }
                push_step(&mut out, v[i]);
                proof {
                    assert(v@.take(i as int + 1).drop_last() =~= v@.take(i as int));
                    assert(v@.take(i as int + 1).last() == v@[i as int]);
                    if i == 0 {
                        assert(v@.take(1).len() == 1);
                        assert(v@.take(1)[0] == v@[0]);
                        assert(out@ =~= head + steps_items(v@.take(1)));
                    } else {
                        assert(steps_items(v@.take(i as int + 1)) == steps_items(
                            v@.take(i as int),
                        ) + seq![44u8] + step_bytes(v@[i as int]));
                        assert(out@ =~= head + steps_items(v@.take(i as int + 1)));
                    }
                }
                i = i + 1;
            }
            out.push(125);
            proof {
                assert(v@.take(n as int) =~= v@);
                assert(out@ =~= head + steps_items(v@) + seq![125u8]);
                assert(out@ =~= dec_digits(si as nat) + seq![58u8, 32u8, 123u8] + steps_items(v@)
                    + seq![125u8]);
            }
        },
    }
    out
}

// ---------------------------------------------------------------------------
// Parsing a formatted record gives the record back.
// ---------------------------------------------------------------------------

proof fn lemma_dec_digits_are_digits(v: nat)
    ensures
        dec_digits(v).len() >= 1,
        forall|k: int| 0 <= k < dec_digits(v).len() ==> is_digit(#[trigger] dec_digits(v)[k]),
    decreases v,
{
    if v >= 10 {
        lemma_dec_digits_are_digits(v / 10);
    }
}

/// A run of digits ending at a non-digit is exactly what `digits_end` scans.
proof fn lemma_digits_end_exact(s: Seq<u8>, i: int, j: int)
    requires
        0 <= i <= j <= s.len(),
        forall|k: int| i <= k < j ==> is_digit(#[trigger] s[k]),
        j == s.len() || !is_digit(s[j]),
    ensures
        digits_end(s, i) == j,
    decreases j - i,
{
    if i < j {
        lemma_digits_end_exact(s, i + 1, j);
    }
}

/// The digits of `v`, read back, give `v`.
proof fn lemma_digits_val_exact(s: Seq<u8>, i: int, v: nat)
    requires
        0 <= i,
        i + dec_digits(v).len() <= s.len(),
        s.subrange(i, i + dec_digits(v).len() as int) == dec_digits(v),
    ensures
        digits_val(s, i, i + dec_digits(v).len() as int) == v,
    decreases v,
{
    let l = dec_digits(v).len() as int;
    if v < 10 {
        assert(s[i] == dec_digits(v)[0]);
        assert(digits_val(s, i, i + 1) == digits_val(s, i, i) * 10 + (s[i] - 48));
    } else {
        let l0 = dec_digits(v / 10).len() as int;
        assert(dec_digits(v) == dec_digits(v / 10).push((48 + v % 10) as u8));
        assert(l == l0 + 1);
        assert(s.subrange(i, i + l0) =~= dec_digits(v / 10)) by {
            assert forall|k: int| 0 <= k < l0 implies #[trigger] s.subrange(i, i + l0)[k] == dec_digits(
                v / 10,
            )[k] by {
                assert(s.subrange(i, i + l)[k] == dec_digits(v)[k]);
                assert(dec_digits(v)[k] == dec_digits(v / 10)[k]);
            }
        }
        lemma_digits_val_exact(s, i, v / 10);
        assert(s[i + l - 1] == dec_digits(v)[l - 1]);
        assert(dec_digits(v)[l - 1] == (48 + v % 10) as u8);
        assert(digits_val(s, i, i + l) == digits_val(s, i, i + l - 1) * 10 + (s[i + l - 1]
            - 48));
        assert((v / 10) * 10 + v % 10 == v) by (nonlinear_arith);
    }
}

/// Parsing an unsigned number out of its own digits succeeds.
proof fn lemma_parse_u32_exact(s: Seq<u8>, i: int, v: u32)
    requires
        0 <= i,
        i + dec_digits(v as nat).len() <= s.len(),
        s.subrange(i, i + dec_digits(v as nat).len() as int) == dec_digits(v as nat),
        i + dec_digits(v as nat).len() == s.len() || !is_digit(
            s[i + dec_digits(v as nat).len()],
        ),
    ensures
        spec_parse_u32(s, i) == Option::Some((v, i + dec_digits(v as nat).len() as int)),
{
    let l = dec_digits(v as nat).len() as int;
    lemma_dec_digits_are_digits(v as nat);
    assert forall|k: int| i <= k < i + l implies is_digit(#[trigger] s[k]) by {
        assert(s[k] == s.subrange(i, i + l)[k - i]);
    }
    lemma_digits_end_exact(s, i, i + l);
    lemma_digits_val_exact(s, i, v as nat);
}

/// Parsing a signed number out of its own bytes succeeds.
proof fn lemma_parse_i32_exact(s: Seq<u8>, i: int, x: i32)
    requires
        0 <= i,
        i + int_bytes(x as int).len() <= s.len(),
        s.subrange(i, i + int_bytes(x as int).len() as int) == int_bytes(x as int),
        i + int_bytes(x as int).len() == s.len() || !is_digit(s[i + int_bytes(x as int).len()]),
    ensures
        spec_parse_i32(s, i) == Option::Some((x, i + int_bytes(x as int).len() as int)),
{
    let b = int_bytes(x as int);
    let l = b.len() as int;
    if x < 0 {
        let m = (-(x as int)) as nat;
        let dl = dec_digits(m).len() as int;
        assert(b == seq![45u8] + dec_digits(m));
        assert(l == 1 + dl);
        assert(s[i] == 45) by {
            assert(s.subrange(i, i + l)[0] == b[0]);
        }
        assert(s.subrange(i + 1, i + 1 + dl) =~= dec_digits(m)) by {
            assert forall|k: int| 0 <= k < dl implies #[trigger] s.subrange(i + 1, i + 1 + dl)[k]
                == dec_digits(m)[k] by {
                assert(s.subrange(i, i + l)[k + 1] == b[k + 1]);
                assert(b[k + 1] == dec_digits(m)[k]);
            }
        }
        lemma_dec_digits_are_digits(m);
        assert forall|k: int| i + 1 <= k < i + 1 + dl implies is_digit(#[trigger] s[k]) by {
            assert(s.subrange(i + 1, i + 1 + dl)[k - i - 1] == s[k]);
            assert(dec_digits(m)[k - i - 1] == s[k]);
        }
        lemma_digits_end_exact(s, i + 1, i + 1 + dl);
        lemma_digits_val_exact(s, i + 1, m);
        assert(digits_val(s, i + 1, i + 1 + dl) == m);
        assert(m <= 0x8000_0000);
        assert((-digits_val(s, i + 1, i + 1 + dl)) as i32 == x);
    } else {
        lemma_dec_digits_are_digits(x as nat);
        assert(s[i] == b[0]) by {
            assert(s.subrange(i, i + l)[0] == b[0]);
        }
        assert(is_digit(s[i]));
        assert(s[i] != 45);
        assert forall|k: int| i <= k < i + l implies is_digit(#[trigger] s[k]) by {
            assert(s.subrange(i, i + l)[k - i] == s[k]);
            assert(b[k - i] == s[k]);
        }
        lemma_digits_end_exact(s, i, i + l);
        lemma_digits_val_exact(s, i, x as nat);
        assert(digits_val(s, i, i + l) == x);
    }
}

/// No byte of a formatted number is a blank, a brace, a comma or a colon.
proof fn lemma_int_bytes_shape(x: int)
    ensures
        int_bytes(x).len() >= 1,
        !is_ws(int_bytes(x)[0]),
        int_bytes(x)[0] == 45 || is_digit(int_bytes(x)[0]),
{
    if x < 0 {
        lemma_dec_digits_are_digits((-x) as nat);
    } else {
        lemma_dec_digits_are_digits(x as nat);
    }
}

/// Parsing one step out of its own bytes succeeds.
proof fn lemma_parse_step_exact(s: Seq<u8>, i: int, p: Point<i32>)
    requires
        0 <= i,
        i + step_bytes(p).len() <= s.len(),
        s.subrange(i, i + step_bytes(p).len() as int) == step_bytes(p),
    ensures
        spec_parse_step(s, i) == Option::Some((p, i + step_bytes(p).len() as int)),
{
    let b = step_bytes(p);
    let l = b.len() as int;
    let bx = int_bytes(p.x as int);
    let by = int_bytes(p.y as int);
    let lx = bx.len() as int;
    let ly = by.len() as int;
    assert(l == 1 + lx + 1 + ly + 1);
    lemma_int_bytes_shape(p.x as int);
    lemma_int_bytes_shape(p.y as int);
    assert(b[0] == 123);
    assert(b[1] == bx[0]);
    assert(b[1 + lx] == 44);
    assert(b[2 + lx] == by[0]);
    assert(b[2 + lx + ly] == 125);
    assert(s[i] == 123) by {
        assert(s.subrange(i, i + l)[0] == b[0]);
    }
    assert(s[i + 1] == bx[0]) by {
        assert(s.subrange(i, i + l)[1] == b[1]);
    }
    assert(skip_ws(s, i + 1) == i + 1);
    assert(s.subrange(i + 1, i + 1 + lx) =~= bx) by {
        assert forall|k: int| 0 <= k < lx implies #[trigger] s.subrange(i + 1, i + 1 + lx)[k]
            == bx[k] by {
            assert(s.subrange(i, i + l)[k + 1] == b[k + 1]);
            assert(b[k + 1] == bx[k]);
        }
    }
    assert(s[i + 1 + lx] == 44) by {
        assert(s.subrange(i, i + l)[1 + lx] == b[1 + lx]);
    }
    lemma_parse_i32_exact(s, i + 1, p.x);
    assert(skip_ws(s, i + 1 + lx) == i + 1 + lx);
    assert(s[i + 2 + lx] == by[0]) by {
        assert(s.subrange(i, i + l)[2 + lx] == b[2 + lx]);
    }
    assert(skip_ws(s, i + 2 + lx) == i + 2 + lx);
    assert(s.subrange(i + 2 + lx, i + 2 + lx + ly) =~= by) by {
        assert forall|k: int| 0 <= k < ly implies #[trigger] s.subrange(
            i + 2 + lx,
            i + 2 + lx + ly,
        )[k] == by[k] by {
            assert(s.subrange(i, i + l)[2 + lx + k] == b[2 + lx + k]);
            assert(b[2 + lx + k] == by[k]);
        }
    }
    assert(s[i + 2 + lx + ly] == 125) by {
        assert(s.subrange(i, i + l)[2 + lx + ly] == b[2 + lx + ly]);
    }
    lemma_parse_i32_exact(s, i + 2 + lx, p.y);
    assert(skip_ws(s, i + 2 + lx + ly) == i + 2 + lx + ly);
}

/// The items after the first, comma separated, front first.
pub open spec fn commas_items(w: Seq<Point<i32>>) -> Seq<u8>
    decreases w.len(),
{
    if w.len() == 0 {
        Seq::empty()
    } else {
        seq![44u8] + step_bytes(w[0]) + commas_items(w.drop_first())
    }
}

proof fn lemma_commas_push(w: Seq<Point<i32>>, p: Point<i32>)
    ensures
        commas_items(w.push(p)) == commas_items(w) + seq![44u8] + step_bytes(p),
    decreases w.len(),
{
    if w.len() == 0 {
        assert(w.push(p)[0] == p);
        assert(w.push(p).drop_first() =~= Seq::<Point<i32>>::empty());
        assert(commas_items(w.push(p)) == seq![44u8] + step_bytes(p) + commas_items(
            Seq::<Point<i32>>::empty(),
        ));
        assert(commas_items(Seq::<Point<i32>>::empty()) =~= Seq::<u8>::empty());
        assert(commas_items(w) =~= Seq::<u8>::empty());
        assert(seq![44u8] + step_bytes(p) + Seq::<u8>::empty() =~= commas_items(w) + seq![44u8]
            + step_bytes(p));
    } else {
        assert(w.push(p).drop_first() =~= w.drop_first().push(p));
        lemma_commas_push(w.drop_first(), p);
        assert(w.push(p)[0] == w[0]);
        assert(commas_items(w.push(p)) == seq![44u8] + step_bytes(w[0]) + commas_items(
            w.drop_first().push(p),
        ));
        assert(commas_items(w.push(p)) == seq![44u8] + step_bytes(w[0]) + (commas_items(
            w.drop_first(),
        ) + seq![44u8] + step_bytes(p)));
        assert(seq![44u8] + step_bytes(w[0]) + (commas_items(w.drop_first()) + seq![44u8]
            + step_bytes(p)) =~= (seq![44u8] + step_bytes(w[0]) + commas_items(w.drop_first()))
            + seq![44u8] + step_bytes(p));
        assert(commas_items(w) == seq![44u8] + step_bytes(w[0]) + commas_items(w.drop_first()));
    }
}

/// The back-built item list equals the first step followed by the
/// comma-prefixed rest.
proof fn lemma_items_front(v: Seq<Point<i32>>)
    requires
        v.len() >= 1,
    ensures
        steps_items(v) == step_bytes(v[0]) + commas_items(v.drop_first()),
    decreases v.len(),
{
    if v.len() == 1 {
        assert(v.drop_first() =~= Seq::<Point<i32>>::empty());
        assert(steps_items(v) =~= step_bytes(v[0]) + commas_items(v.drop_first()));
    } else {
        let dl = v.drop_last();
        lemma_items_front(dl);
        assert(dl[0] == v[0]);
        lemma_commas_push(dl.drop_first(), v.last());
        assert(dl.drop_first().push(v.last()) =~= v.drop_first());
        assert(steps_items(v) =~= step_bytes(v[0]) + commas_items(v.drop_first()));
    }
}

/// Parsing the comma-separated rest of a list out of its own bytes gathers
/// exactly the remaining steps.
proof fn lemma_parse_rest_exact(s: Seq<u8>, i: int, acc: Seq<Point<i32>>, w: Seq<Point<i32>>)
    requires
        0 <= i,
        i + commas_items(w).len() + 1 <= s.len(),
        s.subrange(i, i + commas_items(w).len() + 1) == commas_items(w) + seq![125u8],
    ensures
        spec_parse_steps_rest(s, i, acc) == Option::Some(
            (acc + w, i + commas_items(w).len() + 1),
        ),
    decreases w.len(),
{
    let cb = commas_items(w).len() as int;
    let full = commas_items(w) + seq![125u8];
    if w.len() == 0 {
        assert(commas_items(w) =~= Seq::<u8>::empty());
        assert(s[i] == 125) by {
            assert(s.subrange(i, i + cb + 1)[0] == full[0]);
        }
        assert(skip_ws(s, i) == i);
        assert(acc + w =~= acc);
    } else {
        let sb = step_bytes(w[0]);
        let sl = sb.len() as int;
        let rest = commas_items(w.drop_first());
        assert(commas_items(w) == seq![44u8] + sb + rest);
        assert(full[0] == 44);
        assert(s[i] == 44) by {
            assert(s.subrange(i, i + cb + 1)[0] == full[0]);
        }
        assert(skip_ws(s, i) == i);
        lemma_int_bytes_shape(w[0].x as int);
        assert(sb[0] == 123);
        assert(full[1] == sb[0]);
        assert(s[i + 1] == 123) by {
            assert(s.subrange(i, i + cb + 1)[1] == full[1]);
        }
        assert(skip_ws(s, i + 1) == i + 1);
        assert(s.subrange(i + 1, i + 1 + sl) =~= sb) by {
            assert forall|k: int| 0 <= k < sl implies #[trigger] s.subrange(i + 1, i + 1 + sl)[k]
                == sb[k] by {
                assert(s.subrange(i, i + cb + 1)[1 + k] == full[1 + k]);
                assert(full[1 + k] == sb[k]);
            }
        }
        lemma_parse_step_exact(s, i + 1, w[0]);
        assert(s.subrange(i + 1 + sl, i + 1 + sl + rest.len() + 1) =~= rest + seq![125u8]) by {
            assert forall|k: int| 0 <= k < rest.len() + 1 implies #[trigger] s.subrange(
                i + 1 + sl,
                i + 1 + sl + rest.len() + 1,
            )[k] == (rest + seq![125u8])[k] by {
                assert(s.subrange(i, i + cb + 1)[1 + sl + k] == full[1 + sl + k]);
                assert(full[1 + sl + k] == (rest + seq![125u8])[k]);
            }
        }
        lemma_parse_rest_exact(s, i + 1 + sl, acc.push(w[0]), w.drop_first());
        assert(acc.push(w[0]) + w.drop_first() =~= acc + w);
    }
}

proof fn lemma_parse_format_head(si: u32, steps: Option<Seq<Point<i32>>>)
    ensures
        ({
            let s = spec_format_record(si, steps);
            let dl = dec_digits(si as nat).len() as int;
            &&& skip_ws(s, 0) == 0
            &&& spec_parse_u32(s, 0) == Option::Some((si, dl))
            &&& skip_ws(s, dl) == dl
            &&& (steps is Some ==> dl < s.len() && s[dl] == 58 && skip_ws(s, dl + 1) == dl + 2
                && dl + 2 < s.len() && s[dl + 2] == 123)
            &&& (steps is None ==> s.len() == dl)
        }),
{
    let s = spec_format_record(si, steps);
    let dd = dec_digits(si as nat);
    let dl = dd.len() as int;
    lemma_dec_digits_are_digits(si as nat);
    match steps {
        Option::None => {
            assert(s == dd);
            assert(skip_ws(s, 0) == 0);
            assert(s.subrange(0, dl) =~= dd);
            lemma_parse_u32_exact(s, 0, si);
            assert(skip_ws(s, dl) == dl);
        },
        Option::Some(v) => {
            let items = steps_items(v);
            assert(s == dd + seq![58u8, 32u8, 123u8] + items + seq![125u8]);
            assert(s[0] == dd[0]);
            assert(skip_ws(s, 0) == 0);
            assert(s.subrange(0, dl) =~= dd) by {
                assert forall|k: int| 0 <= k < dl implies #[trigger] s.subrange(0, dl)[k]
                    == dd[k] by {
                    assert(s[k] == dd[k]);
                }
            }
            assert(s[dl] == 58);
            lemma_parse_u32_exact(s, 0, si);
            assert(skip_ws(s, dl) == dl);
            assert(s[dl + 1] == 32);
            assert(s[dl + 2] == 123);
            assert(skip_ws(s, dl + 1) == skip_ws(s, dl + 2));
            assert(skip_ws(s, dl + 2) == dl + 2);
        },
    }
}

#[verifier::rlimit(100)]
proof fn lemma_format_list_bytes(si: u32, v: Seq<Point<i32>>)
    ensures
        ({
            let s = spec_format_record(si, Option::Some(v));
            let dl = dec_digits(si as nat).len() as int;
            let items = steps_items(v);
            &&& s.len() == dl + 3 + items.len() + 1
            &&& forall|k: int| 0 <= k < items.len() ==> s[dl + 3 + k] == #[trigger] items[k]
            &&& s[dl + 3 + items.len()] == 125
        }),
{
    let s = spec_format_record(si, Option::Some(v));
    let dd = dec_digits(si as nat);
    let dl = dd.len() as int;
    let items = steps_items(v);
    assert(s == dd + seq![58u8, 32u8, 123u8] + items + seq![125u8]);
    assert forall|k: int| 0 <= k < items.len() implies s[dl + 3 + k] == #[trigger] items[k] by {
        assert((dd + seq![58u8, 32u8, 123u8] + items)[dl + 3 + k] == items[k]);
    }
}

#[verifier::rlimit(100)]
proof fn lemma_parse_format_list(si: u32, v: Seq<Point<i32>>)
    ensures
        ({
            let s = spec_format_record(si, Option::Some(v));
            let dl = dec_digits(si as nat).len() as int;
            spec_parse_steps(s, dl + 3) == Option::Some((v, s.len() as int))
        }),
{
    let s = spec_format_record(si, Option::Some(v));
    let dl = dec_digits(si as nat).len() as int;
    let items = steps_items(v);
    let il = items.len() as int;
    lemma_format_list_bytes(si, v);
    if v.len() == 0 {
        assert(items =~= Seq::<u8>::empty());
        assert(s[dl + 3] == 125);
        assert(skip_ws(s, dl + 3) == dl + 3);
        assert(spec_parse_steps(s, dl + 3) == Option::Some(
            (Seq::<Point<i32>>::empty(), dl + 4),
        ));
        assert(v =~= Seq::<Point<i32>>::empty());
    } else {
        lemma_items_front(v);
        let sb = step_bytes(v[0]);
        let sl = sb.len() as int;
        let rest = commas_items(v.drop_first());
        assert(items == sb + rest);
        lemma_int_bytes_shape(v[0].x as int);
        assert(sb[0] == 123);
        assert(s[dl + 3] == sb[0]) by {
            assert(items[0] == sb[0]);
        }
        assert(skip_ws(s, dl + 3) == dl + 3);
        assert(s.subrange(dl + 3, dl + 3 + sl) =~= sb) by {
            assert forall|k: int| 0 <= k < sl implies #[trigger] s.subrange(
                dl + 3,
                dl + 3 + sl,
            )[k] == sb[k] by {
                assert(s[dl + 3 + k] == items[k]);
                assert(items[k] == sb[k]);
            }
        }
        lemma_parse_step_exact(s, dl + 3, v[0]);
        assert(s.subrange(dl + 3 + sl, dl + 3 + sl + rest.len() + 1) =~= rest + seq![125u8])
            by {
            assert forall|k: int| 0 <= k < rest.len() + 1 implies #[trigger] s.subrange(
                dl + 3 + sl,
                dl + 3 + sl + rest.len() + 1,
            )[k] == (rest + seq![125u8])[k] by {
                if k < rest.len() {
                    assert(s[dl + 3 + sl + k] == items[sl + k]);
                    assert(items[sl + k] == rest[k]);
                } else {
                    assert(s[dl + 3 + il] == 125);
                }
            }
        }
        lemma_parse_rest_exact(s, dl + 3 + sl, seq![v[0]], v.drop_first());
        assert(seq![v[0]] + v.drop_first() =~= v);
        assert(spec_parse_steps(s, dl + 3) == Option::Some((v, s.len() as int)));
    }
}

/// Round trip: parsing a formatted record gives the record back, for every
/// record.
pub proof fn lemma_parse_format_record(si: u32, steps: Option<Seq<Point<i32>>>)
    ensures
        spec_parse_record(spec_format_record(si, steps)) == Option::Some((si, steps)),
{
    let s = spec_format_record(si, steps);
    let dl = dec_digits(si as nat).len() as int;
    lemma_parse_format_head(si, steps);
    match steps {
        Option::None => {},
        Option::Some(v) => {
            lemma_parse_format_list(si, v);
            assert(skip_ws(s, s.len() as int) == s.len());
        },
    }
}

} // verus!
