use weavelang::interp::{Event, Host, Noise, SystemNoise, WeaveLang};
use weavelang::parser::{ErrorKind, WeaveError};
use weavelang::scalar::{DRIFT_DEFAULT_RANGE, SCALAR_MAX, SCALE};

/// A host double: a settable light reading, zero for every other sensor,
/// and a record of every actuation request.
struct TestHost {
    light: i64,
    acts: Vec<(Vec<u8>, i64, i64)>,
}

impl TestHost {
    fn new(light: i64) -> TestHost {
        TestHost { light, acts: Vec::new() }
    }
}

impl Host for TestHost {
    fn sense(&mut self, sensor: &[u8]) -> i64 {
        if sensor == b"light" as &[u8] {
            self.light
        } else {
            0
        }
    }

    fn act(&mut self, action: &[u8], v0: i64, v1: i64) {
        self.acts.push((action.to_vec(), v0, v1));
    }
}

/// A noise double: hands out a fixed list of draws, forced into the
/// half-open requested interval, and records each requested interval.
struct FixedNoise {
    vals: Vec<i64>,
    next: usize,
    ranges: Vec<(i64, i64)>,
}

impl FixedNoise {
    fn new(vals: Vec<i64>) -> FixedNoise {
        FixedNoise { vals, next: 0, ranges: Vec::new() }
    }
}

impl Noise for FixedNoise {
    fn draw(&mut self, lo: i64, hi: i64) -> i64 {
        self.ranges.push((lo, hi));
        let raw = if self.next < self.vals.len() {
            self.vals[self.next]
        } else {
            0
        };
        self.next += 1;
        if raw < lo {
            lo
        } else if raw >= hi && lo < hi {
            hi - 1
        } else if raw > hi {
            hi
        } else {
            raw
        }
    }
}

fn run_ok(w: &mut WeaveLang, code: &[u8], host: &mut TestHost, noise: &mut FixedNoise) -> Vec<Event> {
    match w.execute(code, host, noise) {
        Ok(events) => events,
        Err(_) => panic!("program was expected to parse"),
    }
}

#[test]
fn fields_mark_created_and_nothing_else() {
    let mut w = WeaveLang::new();
    let mut h = TestHost::new(0);
    let mut n = FixedNoise::new(vec![]);
    let events = run_ok(&mut w, b"field robot field light_sensor", &mut h, &mut n);
    assert_eq!(w.model_get(b"robot.created"), SCALE);
    assert_eq!(w.model_get(b"light_sensor.created"), SCALE);
    assert_eq!(w.model_get(b"robot"), 0);
    assert_eq!(w.history_len(), 0);
    assert_eq!(w.coherence(), 0);
    assert!(events.is_empty());
    assert!(h.acts.is_empty());
}

#[test]
fn tension_appends_history_and_fires_action() {
    // Seed the threshold at 5.0, sense 4.0: tension 1.0, and since the
    // comparator is < and 4.0 < 5.0 the action fires once.
    let mut w = WeaveLang::new();
    w.model_set(b"threshold", 5 * SCALE);
    let mut h = TestHost::new(4 * SCALE);
    let mut n = FixedNoise::new(vec![]);
    let events = run_ok(
        &mut w,
        b"tension light < threshold => move(1.0, 0.0)",
        &mut h,
        &mut n,
    );
    assert_eq!(w.history_len(), 1);
    assert_eq!(w.history_at(0), SCALE);
    assert_eq!(h.acts.len(), 1);
    assert_eq!(h.acts[0], (b"move".to_vec(), SCALE, 0));
    assert_eq!(events.len(), 2);
    match &events[0] {
        Event::Acted { action, v0, v1 } => {
            assert_eq!(action.as_slice(), b"move" as &[u8]);
            assert_eq!(*v0, SCALE);
            assert_eq!(*v1, 0);
        }
        _ => panic!("first event should be the actuation"),
    }
    match &events[1] {
        Event::Tension { value } => assert_eq!(*value, SCALE),
        _ => panic!("second event should report the tension"),
    }
}

#[test]
fn tension_appends_even_when_rule_does_not_fire() {
    let mut w = WeaveLang::new();
    w.model_set(b"threshold", 3 * SCALE);
    let mut h = TestHost::new(4 * SCALE);
    let mut n = FixedNoise::new(vec![]);
    let events = run_ok(
        &mut w,
        b"tension light < threshold => move(1.0, 0.0)",
        &mut h,
        &mut n,
    );
    assert_eq!(w.history_len(), 1);
    assert_eq!(w.history_at(0), SCALE);
    assert!(h.acts.is_empty());
    assert_eq!(events.len(), 1);
    match &events[0] {
        Event::Tension { value } => assert_eq!(*value, SCALE),
        _ => panic!("the tension is still reported"),
    }
}

#[test]
fn tension_greater_comparator() {
    let mut w = WeaveLang::new();
    w.model_set(b"threshold", 3 * SCALE);
    let mut h = TestHost::new(4 * SCALE);
    let mut n = FixedNoise::new(vec![]);
    run_ok(&mut w, b"tension light > threshold => flee(0.0, 2.0)", &mut h, &mut n);
    assert_eq!(h.acts.len(), 1);
    assert_eq!(h.acts[0], (b"flee".to_vec(), 0, 2 * SCALE));
}

#[test]
fn unknown_sensor_reads_zero() {
    let mut w = WeaveLang::new();
    w.model_set(b"threshold", SCALE);
    let mut h = TestHost::new(9 * SCALE);
    let mut n = FixedNoise::new(vec![]);
    run_ok(&mut w, b"tension mystery < threshold => move(1.0, 0.0)", &mut h, &mut n);
    // observed 0.0 against expected 1.0: tension 1.0, and the rule fires.
    assert_eq!(w.history_at(0), SCALE);
    assert_eq!(h.acts.len(), 1);
}

#[test]
fn drift_mutates_nothing() {
    let mut w = WeaveLang::new();
    w.model_set(b"intensity", 2 * SCALE);
    let mut h = TestHost::new(0);
    let mut n = FixedNoise::new(vec![250]);
    let events = run_ok(&mut w, b"drift intensity", &mut h, &mut n);
    assert_eq!(w.model_get(b"intensity"), 2 * SCALE);
    assert_eq!(w.history_len(), 0);
    assert_eq!(w.coherence(), 0);
    assert_eq!(events.len(), 1);
    match &events[0] {
        Event::Drifted { param, value } => {
            assert_eq!(param.as_slice(), b"intensity" as &[u8]);
            assert_eq!(*value, 2 * SCALE + 250);
        }
        _ => panic!("drift reports its candidate"),
    }
}

#[test]
fn drift_range_is_half_unit_without_history() {
    let mut w = WeaveLang::new();
    let mut h = TestHost::new(0);
    let mut n = FixedNoise::new(vec![0]);
    run_ok(&mut w, b"drift intensity", &mut h, &mut n);
    assert_eq!(n.ranges, vec![(-DRIFT_DEFAULT_RANGE, DRIFT_DEFAULT_RANGE)]);
}

#[test]
fn drift_range_is_tenth_of_mean_tension() {
    let mut w = WeaveLang::new();
    w.model_set(b"threshold", SCALE);
    let mut h = TestHost::new(2 * SCALE);
    let mut n = FixedNoise::new(vec![0]);
    // One recorded tension of 1.0, so the drift draw spans a tenth of it.
    run_ok(&mut w, b"tension light < threshold => move(1.0, 0.0)", &mut h, &mut n);
    run_ok(&mut w, b"drift threshold", &mut h, &mut n);
    assert_eq!(n.ranges, vec![(-100, 100)]);
}

#[test]
fn resolve_commits_under_threshold() {
    let mut w = WeaveLang::new();
    w.model_set(b"intensity", 3500);
    let mut h = TestHost::new(4 * SCALE);
    let mut n = FixedNoise::new(vec![0]);
    let events = run_ok(&mut w, b"resolve light.intensity", &mut h, &mut n);
    // candidate 3.5, observed 4.0: tension 0.5 < 2.0, so the value commits
    // and coherence becomes 1 / (1 + 0.5).
    assert_eq!(w.model_get(b"intensity"), 3500);
    assert_eq!(w.coherence(), 1_000_000 / 1500);
    assert_eq!(events.len(), 1);
    match &events[0] {
        Event::Resolved { coherence } => assert_eq!(*coherence, 666),
        _ => panic!("a successful resolve is reported"),
    }
}

#[test]
fn resolve_is_a_no_op_over_threshold() {
    let mut w = WeaveLang::new();
    let mut h = TestHost::new(4 * SCALE);
    let mut n = FixedNoise::new(vec![0]);
    let events = run_ok(&mut w, b"resolve light.intensity", &mut h, &mut n);
    // candidate 0.0, observed 4.0: tension 4.0 >= 2.0, nothing changes.
    assert_eq!(w.model_get(b"intensity"), 0);
    assert_eq!(w.coherence(), 0);
    assert!(events.is_empty());
    assert_eq!(w.history_len(), 0);
}

#[test]
fn metaweave_defines_primitive() {
    let mut w = WeaveLang::new();
    let mut h = TestHost::new(0);
    let mut n = FixedNoise::new(vec![]);
    let events = run_ok(&mut w, b"metaweave turn rotate", &mut h, &mut n);
    match w.primitive_get(b"turn") {
        Some(action) => assert_eq!(action.as_slice(), b"rotate"),
        None => panic!("the primitive should be defined"),
    }
    assert_eq!(events.len(), 1);
    match &events[0] {
        Event::Defined { primitive, action } => {
            assert_eq!(primitive.as_slice(), b"turn" as &[u8]);
            assert_eq!(action.as_slice(), b"rotate" as &[u8]);
        }
        _ => panic!("the definition is reported"),
    }
}

#[test]
fn metaweave_overwrites_primitive() {
    let mut w = WeaveLang::new();
    let mut h = TestHost::new(0);
    let mut n = FixedNoise::new(vec![]);
    run_ok(&mut w, b"metaweave turn rotate metaweave turn spin", &mut h, &mut n);
    match w.primitive_get(b"turn") {
        Some(action) => assert_eq!(action.as_slice(), b"spin"),
        None => panic!("the primitive should be defined"),
    }
}

#[test]
fn extend_true_sets_joined_key() {
    let mut w = WeaveLang::new();
    let mut h = TestHost::new(0);
    let mut n = FixedNoise::new(vec![]);
    let events = run_ok(&mut w, b"extend robot speed 2.5 true", &mut h, &mut n);
    assert_eq!(w.model_get(b"robot.speed"), 2500);
    assert!(events.is_empty());
}

#[test]
fn extend_false_changes_nothing() {
    let mut w = WeaveLang::new();
    let mut h = TestHost::new(0);
    let mut n = FixedNoise::new(vec![]);
    run_ok(&mut w, b"extend robot speed 2.5 false", &mut h, &mut n);
    assert_eq!(w.model_get(b"robot.speed"), 0);
    assert_eq!(w.history_len(), 0);
}

#[test]
fn extend_condition_is_a_substring_match() {
    let mut w = WeaveLang::new();
    let mut h = TestHost::new(0);
    let mut n = FixedNoise::new(vec![]);
    run_ok(&mut w, b"extend robot speed 2.5 untrue", &mut h, &mut n);
    // Any token containing the letters "true" counts as true.
    assert_eq!(w.model_get(b"robot.speed"), 2500);
}

#[test]
fn loop_zero_does_nothing() {
    let mut w = WeaveLang::new();
    w.model_set(b"threshold", 5 * SCALE);
    let mut h = TestHost::new(4 * SCALE);
    let mut n = FixedNoise::new(vec![]);
    let events = run_ok(
        &mut w,
        b"loop 0 { tension light < threshold => move(1.0, 0.0) }",
        &mut h,
        &mut n,
    );
    assert_eq!(w.history_len(), 0);
    assert!(h.acts.is_empty());
    assert!(events.is_empty());
}

#[test]
fn loop_once_equals_plain_statement() {
    let mut a = WeaveLang::new();
    let mut b = WeaveLang::new();
    a.model_set(b"threshold", 5 * SCALE);
    b.model_set(b"threshold", 5 * SCALE);
    let mut ha = TestHost::new(4 * SCALE);
    let mut hb = TestHost::new(4 * SCALE);
    let mut na = FixedNoise::new(vec![]);
    let mut nb = FixedNoise::new(vec![]);
    run_ok(&mut a, b"loop 1 { tension light < threshold => move(1.0, 0.0) }", &mut ha, &mut na);
    run_ok(&mut b, b"tension light < threshold => move(1.0, 0.0)", &mut hb, &mut nb);
    assert_eq!(a.history_len(), b.history_len());
    assert_eq!(a.history_at(0), b.history_at(0));
    assert_eq!(ha.acts, hb.acts);
}

#[test]
fn loop_five_runs_body_five_times() {
    let mut w = WeaveLang::new();
    w.model_set(b"threshold", 5 * SCALE);
    let mut h = TestHost::new(4 * SCALE);
    let mut n = FixedNoise::new(vec![]);
    run_ok(
        &mut w,
        b"loop 5 { tension light < threshold => move(1.0, 0.0) }",
        &mut h,
        &mut n,
    );
    assert_eq!(w.history_len(), 5);
    for i in 0..5 {
        assert_eq!(w.history_at(i), SCALE);
    }
    assert_eq!(h.acts.len(), 5);
}

#[test]
fn nested_loops_multiply() {
    let mut w = WeaveLang::new();
    let mut h = TestHost::new(0);
    let mut n = FixedNoise::new(vec![]);
    run_ok(&mut w, b"loop 2 { loop 3 { tension light < t => move(1.0, 0.0) } }", &mut h, &mut n);
    assert_eq!(w.history_len(), 6);
}

#[test]
fn vector_model_round_trip() {
    let mut w = WeaveLang::new();
    w.vector_set(b"position", vec![0, 2500]);
    match w.vector_get(b"position") {
        Some(v) => assert_eq!(v, &vec![0, 2500]),
        None => panic!("the seeded vector should be there"),
    }
    assert!(w.vector_get(b"velocity").is_none());
    // Statements never touch the vector model.
    let mut h = TestHost::new(0);
    let mut n = FixedNoise::new(vec![]);
    run_ok(&mut w, b"field x drift x metaweave a b", &mut h, &mut n);
    assert_eq!(w.vector_get(b"position"), Some(&vec![0, 2500]));
}

#[test]
fn model_set_saturates_at_scalar_bound() {
    let mut w = WeaveLang::new();
    w.model_set(b"big", i64::MAX);
    assert_eq!(w.model_get(b"big"), SCALAR_MAX);
    w.model_set(b"small", i64::MIN);
    assert_eq!(w.model_get(b"small"), -SCALAR_MAX);
}

#[test]
fn system_noise_respects_bounds() {
    let mut n = SystemNoise;
    assert_eq!(n.draw(7, 7), 7);
    for _ in 0..100 {
        let v = n.draw(-10, 10);
        // The draw is half-open: the upper bound is never returned.
        assert!((-10..10).contains(&v));
    }
}

#[test]
fn empty_and_blank_programs_are_accepted() {
    let mut w = WeaveLang::new();
    let mut h = TestHost::new(0);
    let mut n = FixedNoise::new(vec![]);
    let events = run_ok(&mut w, b"", &mut h, &mut n);
    assert!(events.is_empty());
    let events = run_ok(&mut w, b"  \n\t ", &mut h, &mut n);
    assert!(events.is_empty());
    assert_eq!(w.history_len(), 0);
}

#[test]
fn observer_channel_filters_the_log() {
    let mut w = WeaveLang::new();
    w.model_set(b"threshold", 5 * SCALE);
    let mut h = TestHost::new(4 * SCALE);
    let mut n = FixedNoise::new(vec![0]);
    let events = run_ok(
        &mut w,
        b"metaweave turn rotate tension light < threshold => move(1.0, 0.0) drift threshold",
        &mut h,
        &mut n,
    );
    let observed = weavelang::interp::observer_events(&events);
    // Only the definition and the tension reach the observer; the
    // actuation request and the drift candidate stay in the full log.
    assert_eq!(observed.len(), 2);
    assert!(matches!(observed[0], Event::Defined { .. }));
    assert!(matches!(observed[1], Event::Tension { value: SCALE }));
}

#[test]
fn failed_parse_leaves_state_untouched() {
    let mut w = WeaveLang::new();
    w.model_set(b"threshold", 5 * SCALE);
    let mut h = TestHost::new(4 * SCALE);
    let mut n = FixedNoise::new(vec![]);
    let r = w.execute(b"field x tension light <", &mut h, &mut n);
    assert!(matches!(r, Err(WeaveError::Syntax(_))));
    // The whole program is parsed before any of it runs.
    assert_eq!(w.model_get(b"x.created"), 0);
    assert_eq!(w.history_len(), 0);
    assert!(h.acts.is_empty());
}

#[test]
fn deep_nesting_is_resource_exhaustion() {
    let mut code: Vec<u8> = Vec::new();
    for _ in 0..70 {
        code.extend_from_slice(b"loop 1 { ");
    }
    code.extend_from_slice(b"field x");
    for _ in 0..70 {
        code.extend_from_slice(b" }");
    }
    let mut w = WeaveLang::new();
    let mut h = TestHost::new(0);
    let mut n = FixedNoise::new(vec![]);
    let r = w.execute(&code, &mut h, &mut n);
    assert!(matches!(r, Err(WeaveError::ResourceExhaustion)));
    assert_eq!(w.model_get(b"x.created"), 0);
}

#[test]
fn malformed_tension_is_a_syntax_error() {
    // The wrong comparator token and a missing second action value must be
    // a reported error, not a panic or a silent partial result.
    let mut w = WeaveLang::new();
    let mut h = TestHost::new(0);
    let mut n = FixedNoise::new(vec![]);
    let r = w.execute(b"tension light <> threshold => move(1.0)", &mut h, &mut n);
    assert!(matches!(r, Err(WeaveError::Syntax(_))));
    assert_eq!(w.history_len(), 0);
    assert!(h.acts.is_empty());
}

#[test]
fn syntax_error_kinds_and_positions() {
    let mut w = WeaveLang::new();
    let mut h = TestHost::new(0);
    let mut n = FixedNoise::new(vec![]);
    let cases: Vec<(&[u8], ErrorKind)> = vec![
        (b"field @", ErrorKind::UnexpectedChar),
        (b"bogus x", ErrorKind::ExpectedStatement),
        (b"field 1", ErrorKind::ExpectedName),
        (b"tension light . threshold => move(1.0, 0.0)", ErrorKind::ExpectedComparator),
        (b"tension light < threshold move(1.0, 0.0)", ErrorKind::ExpectedArrow),
        (b"tension light < threshold => move 1.0, 0.0)", ErrorKind::ExpectedParen),
        (b"tension light < threshold => move(1.0 0.0)", ErrorKind::ExpectedComma),
        (b"tension light < threshold => move(x, 0.0)", ErrorKind::ExpectedNumber),
        (b"resolve light intensity", ErrorKind::ExpectedDot),
        (b"extend robot speed 2.5 3.5", ErrorKind::ExpectedCondition),
        (b"loop 2 field x", ErrorKind::ExpectedBrace),
        (b"loop 1.5 { field x }", ErrorKind::ExpectedCount),
        (b"loop 2 { field x", ErrorKind::UnterminatedBlock),
    ];
    for (code, kind) in cases {
        match w.execute(code, &mut h, &mut n) {
            Err(WeaveError::Syntax(e)) => {
                assert!(
                    std::mem::discriminant(&e.kind) == std::mem::discriminant(&kind),
                    "wrong kind at pos {}",
                    e.pos
                );
                assert!(e.pos <= code.len());
            }
            _ => panic!("expected a syntax error"),
        }
    }
}

#[test]
fn numeric_literals_parse_exactly() {
    let mut w = WeaveLang::new();
    let mut h = TestHost::new(0);
    let mut n = FixedNoise::new(vec![]);
    run_ok(&mut w, b"extend k a 1.0 true", &mut h, &mut n);
    assert_eq!(w.model_get(b"k.a"), 1000);
    run_ok(&mut w, b"extend k b -3.25 true", &mut h, &mut n);
    assert_eq!(w.model_get(b"k.b"), -3250);
    run_ok(&mut w, b"extend k c 0.1239 true", &mut h, &mut n);
    assert_eq!(w.model_get(b"k.c"), 123);
    run_ok(&mut w, b"extend k d 42 true", &mut h, &mut n);
    assert_eq!(w.model_get(b"k.d"), 42000);
    run_ok(&mut w, b"extend k e 99999999999999999999 true", &mut h, &mut n);
    assert_eq!(w.model_get(b"k.e"), SCALAR_MAX);
    run_ok(&mut w, b"extend k f 0.5 true", &mut h, &mut n);
    assert_eq!(w.model_get(b"k.f"), 500);
}

#[test]
fn events_come_in_execution_order() {
    let mut w = WeaveLang::new();
    w.model_set(b"threshold", 5 * SCALE);
    let mut h = TestHost::new(4 * SCALE);
    let mut n = FixedNoise::new(vec![0]);
    let events = run_ok(
        &mut w,
        b"metaweave turn rotate tension light < threshold => move(1.0, 0.0) drift threshold",
        &mut h,
        &mut n,
    );
    assert_eq!(events.len(), 4);
    assert!(matches!(events[0], Event::Defined { .. }));
    assert!(matches!(events[1], Event::Acted { .. }));
    assert!(matches!(events[2], Event::Tension { .. }));
    assert!(matches!(events[3], Event::Drifted { .. }));
}
