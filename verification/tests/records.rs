use dogwalker::parser::{format_record, parse_record_line, Record, Steps};
use dogwalker::recorder::Recorder;
use dogwalker::sort::{sort_records, SortError};
use dogwalker::walker::Walker;
use dogwalker::{size_of_steps, Point};

fn p32(x: i32, y: i32) -> Point<i32> {
    Point { x, y }
}

fn steps(v: &[(i32, i32)]) -> Vec<Point<i32>> {
    v.iter().map(|&(x, y)| p32(x, y)).collect()
}

fn line(s: &str) -> Vec<u8> {
    s.as_bytes().to_vec()
}

#[test]
fn parse_bare_si() {
    let r = parse_record_line(&line("42")).unwrap();
    assert_eq!(r.si, 42);
    assert!(r.steps.is_none());
}

#[test]
fn parse_steps_line() {
    let r = parse_record_line(&line("7: {{1,0},{0,1},{-1,-1}}")).unwrap();
    assert_eq!(r.si, 7);
    assert_eq!(r.steps.unwrap(), steps(&[(1, 0), (0, 1), (-1, -1)]));
}

#[test]
fn parse_ignores_whitespace() {
    let r = parse_record_line(&line("  7  :  { { 1 , 0 } , { 0 , -13 } }  ")).unwrap();
    assert_eq!(r.si, 7);
    assert_eq!(r.steps.unwrap(), steps(&[(1, 0), (0, -13)]));
}

#[test]
fn parse_empty_step_list() {
    let r = parse_record_line(&line("9: {}")).unwrap();
    assert_eq!(r.si, 9);
    assert_eq!(r.steps.unwrap(), steps(&[]));
}

#[test]
fn parse_extreme_ints() {
    let r = parse_record_line(&line("3: {{-2147483648,2147483647}}")).unwrap();
    assert_eq!(r.steps.unwrap(), steps(&[(i32::MIN, i32::MAX)]));
}

#[test]
fn parse_rejects_malformed_lines() {
    assert!(parse_record_line(&line("")).is_none());
    assert!(parse_record_line(&line("abc")).is_none());
    assert!(parse_record_line(&line("5: {1,0}")).is_none());
    assert!(parse_record_line(&line("5: {{1,0}")).is_none());
    assert!(parse_record_line(&line("5: {{1,0},}")).is_none());
    assert!(parse_record_line(&line("5: {{1}}")).is_none());
    assert!(parse_record_line(&line("4294967296")).is_none());
    assert!(parse_record_line(&line("3: {{2147483648,0}}")).is_none());
    assert!(parse_record_line(&line("3: {{-2147483649,0}}")).is_none());
    assert!(parse_record_line(&line("7: {{1,0},{0,1}} x")).is_none());
    assert!(parse_record_line(&line("7: {{1,0},{0,1}}{")).is_none());
}

#[test]
fn format_then_parse_is_identity() {
    let s = steps(&[(1, 0), (0, 1), (-1, -1)]);
    let out = format_record(7, Some(&s));
    assert_eq!(out, line("7: {{1,0},{0,1},{-1,-1}}"));
    let r = parse_record_line(&out).unwrap();
    assert_eq!(r.si, 7);
    assert_eq!(r.steps.unwrap(), s);

    let bare = format_record(12, None);
    assert_eq!(bare, line("12"));
    let r2 = parse_record_line(&bare).unwrap();
    assert_eq!(r2.si, 12);
    assert!(r2.steps.is_none());
}

#[test]
fn recorder_contains_and_contains_smaller() {
    let records: Vec<Record> = Vec::new();
    let (mut rec, min_si) = Recorder::new(3, true, false, &records).unwrap();
    assert_eq!(min_si, u32::MAX);
    assert!(!rec.contains(6));
    let s = steps(&[(1, 0), (0, 1), (-1, -1)]);
    let size = size_of_steps(&s);
    let l = rec.insert(6, &s, size);
    assert_eq!(l, line("6: {{1,0},{0,1},{-1,-1}}"));
    assert!(rec.contains(6));
    assert!(rec.contains_smaller(6, size));
    assert!(rec.contains_smaller(6, size + 1));
    assert!(!rec.contains_smaller(6, size - 1));
    assert!(!rec.contains_smaller(7, size));
}

#[test]
fn recorder_rebuilds_from_parsed_lines() {
    // A restart: the line written at insert time is parsed back and the
    // rebuilt catalogue holds the same entry.
    let s = steps(&[(1, 0), (0, 1), (-1, -1)]);
    let records: Vec<Record> = Vec::new();
    let (mut rec, _) = Recorder::new(3, true, false, &records).unwrap();
    let l = rec.insert(6, &s, size_of_steps(&s));

    let parsed = parse_record_line(&l).unwrap();
    let reloaded = vec![parsed];
    let (rec2, min_si) = Recorder::new(3, true, false, &reloaded).unwrap();
    assert_eq!(min_si, 6);
    assert!(rec2.contains(6));
    assert!(rec2.contains_smaller(6, size_of_steps(&s)));
    assert!(!rec2.contains_smaller(6, size_of_steps(&s) - 1));
}

#[test]
fn sort_rejects_collinear_records() {
    // A collinear representative indicates file corruption.
    let records = vec![Record { si: 5, steps: Some(steps(&[(1, 0), (2, 0), (0, 1), (-3, -1)])) }];
    assert_eq!(sort_records(&records, false), Err(SortError::Collinear));
}

#[test]
fn sort_rejects_wrong_si() {
    let records = vec![Record { si: 1, steps: Some(steps(&[(1, 0), (0, 1), (-1, -1)])) }];
    // Every closed walk of three steps has simpleness index 6, not 1.
    assert_eq!(sort_records(&records, true), Err(SortError::SiMismatch));
}

#[test]
fn sort_rejects_open_walk_in_closed_file() {
    let records = vec![Record { si: 6, steps: Some(steps(&[(1, 0), (0, 1), (5, 5)])) }];
    assert_eq!(sort_records(&records, true), Err(SortError::NotClosed));
}

#[test]
fn sort_rejects_oversized_steps() {
    let records = vec![Record { si: 6, steps: Some(steps(&[(1 << 30, 0), (0, 1), (-1, -1)])) }];
    assert_eq!(sort_records(&records, false), Err(SortError::BadSteps));
}

#[test]
fn sort_orders_dedups_and_minifies() {
    // A bare record, an unsorted pair of keys, and a duplicate: the
    // step-bearing duplicate wins over the bare one, larger representatives
    // are minified, and the result is ascending.
    let mut w = Walker::new(3, true);
    let small = steps(&[(1, 0), (0, 1), (-1, -1)]);
    w.set_steps(&small);
    let si = w.simpleness_index(true);

    let records = vec![
        Record { si, steps: None },
        Record { si, steps: Some(steps(&[(2, 0), (0, 2), (-2, -2)])) },
    ];
    let (out, changed) = sort_records(&records, true).unwrap();
    assert!(changed);
    assert_eq!(out.len(), 1);
    assert_eq!(out[0].si, si);
    assert_eq!(out[0].steps.as_ref().unwrap(), &small);
}

#[test]
fn sort_is_idempotent() {
    let records = vec![
        Record { si: 6, steps: Some(steps(&[(2, 0), (0, 2), (-2, -2)])) },
        Record { si: 6, steps: None },
    ];
    let (once, changed_once) = sort_records(&records, true).unwrap();
    assert!(changed_once);
    let (twice, changed_twice) = sort_records(&once, true).unwrap();
    assert!(!changed_twice);
    assert_eq!(twice.len(), once.len());
    for (a, b) in twice.iter().zip(once.iter()) {
        assert_eq!(a.si, b.si);
        assert_eq!(a.steps, b.steps);
    }
}

#[test]
fn sort_keeps_sorted_input_unchanged() {
    let records = vec![
        Record { si: 6, steps: Some(steps(&[(1, 0), (0, 1), (-1, -1)])) },
        Record { si: 100, steps: None },
    ];
    let (out, changed) = sort_records(&records, true).unwrap();
    assert!(!changed);
    assert_eq!(out.len(), 2);
    assert_eq!(out[0].si, 6);
    assert_eq!(out[1].si, 100);
}

#[test]
fn search_records_new_si_and_skips_known() {
    // One mode-A iteration by hand: a candidate whose SI the catalogue
    // lacks is verified, minified and inserted; afterwards the same SI is
    // filtered out by the catalogue lookup.
    let mut sim = dogwalker::sim::Simulator::new(3, true, false, 7);
    let records: Vec<Record> = Vec::new();
    let (mut rec, _) = Recorder::new(3, true, false, &records).unwrap();

    let mut inserted = false;
    for _ in 0..1000 {
        let si = sim.prepare();
        if rec.contains(si) {
            break;
        }
        if sim.confirm_first(si) {
            let size = size_of_steps(sim.steps());
            let l = rec.insert(si, sim.steps(), size);
            assert!(parse_record_line(&l).is_some());
            inserted = true;
            break;
        }
    }
    assert!(inserted);
    assert!(rec.contains(6));
}

#[test]
fn steps_wrapper_formats_list() {
    let s = steps(&[(1, 0), (0, -2)]);
    assert_eq!(Steps(&s).to_bytes(), line("{{1,0},{0,-2}}"));
}

#[test]
fn insert_if_better_keeps_sizes_non_increasing() {
    let records: Vec<Record> = Vec::new();
    let (mut rec, _) = Recorder::new(3, true, true, &records).unwrap();
    let s = steps(&[(2, 0), (0, 2), (-2, -2)]);
    assert!(rec.insert_if_better(6, &s, 24).is_some());
    // An equal or larger representative is refused.
    assert!(rec.insert_if_better(6, &s, 24).is_none());
    assert!(rec.insert_if_better(6, &s, 30).is_none());
    // A strictly smaller one replaces the entry.
    let t = steps(&[(1, 0), (0, 1), (-1, -1)]);
    assert!(rec.insert_if_better(6, &t, 6).is_some());
    assert!(rec.contains_smaller(6, 6));
    assert!(!rec.contains_smaller(6, 5));
}

#[test]
fn search_minify_more_inserts_smaller() {
    // One mode-B iteration by hand: the minified candidate is re-verified
    // strictly and inserted only when no representative at least as small
    // is stored.
    let mut sim = dogwalker::sim::Simulator::new(3, true, true, 11);
    let records = vec![Record { si: 6, steps: Some(steps(&[(2, 0), (0, 2), (-2, -2)])) }];
    let (mut rec, _) = Recorder::new(3, true, true, &records).unwrap();
    assert!(rec.contains_smaller(6, 24));

    let mut improved = false;
    for _ in 0..1000 {
        let si = sim.prepare();
        if let Some(size) = sim.confirm_better(si) {
            if !rec.contains_smaller(si, size) {
                assert!(rec.insert_if_better(si, sim.steps(), size).is_some());
                improved = true;
                break;
            }
        }
    }
    // Every closed triangle minifies to unit steps of size 6 < 24.
    assert!(improved);
    assert!(rec.contains_smaller(6, 6));
}
