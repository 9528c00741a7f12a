use vstd::prelude::*;

use crate::ast::{
    block_size, block_view, lemma_block_view_len, stmt_size, stmt_view, Cmp, Statement, StmtV,
};
use crate::bytes::{copy_bytes, push_bytes};
use crate::compose::{lemma_block_step, lemma_repeat_step};
use crate::dict::Dict;
use crate::scalar::{
    clamp_s, clamp_scalar, clamp_to, scalar_distance, DRIFT_DEFAULT_RANGE, RESOLVE_LIMIT,
    SCALAR_MAX, SCALE, TENSION_MAX,
};
use crate::sem::{
    created_suffix, drift_candidate, drift_range, empty_state, hist_sum, joined_key, model_get0,
    run_block, run_repeat, run_stmt, state_wf, tension_fires, EventV, StateV,
};

verus! {

/// The sensing and acting boundary. The host answers a named sensor query
/// with a scalar reading and performs a named action; nothing is assumed of
/// either answer, so the interpreter is verified for every host.
pub trait Host {
    fn sense(&mut self, sensor: &[u8]) -> i64;

    fn act(&mut self, action: &[u8], v0: i64, v1: i64);
}

/// The source of the random draws that drift uses. A draw over a nonempty
/// interval is half-open, below the upper bound, as a uniform draw over
/// `[lo, hi)` is; over the degenerate empty interval it yields the single
/// point. Nothing more is assumed, so the interpreter is verified for
/// every draw.
pub trait Noise {
    fn draw(&mut self, lo: i64, hi: i64) -> (r: i64)
        requires
            lo <= hi,
        ensures
            lo <= r <= hi,
            lo < hi ==> r < hi,
    ;
}

/// A noise source backed by the process-wide random generator.
pub struct SystemNoise;

/// Relies on rand's thread_rng and Rng::gen_range: sampling a nonempty
/// half-open integer range yields a value inside it.
#[verifier::external_body]
fn rand_below(lo: i64, hi: i64) -> (r: i64)
    requires
        lo < hi,
    ensures
        lo <= r < hi,
{
    rand::Rng::gen_range(&mut rand::thread_rng(), lo..hi)
}

impl Noise for SystemNoise {
    fn draw(&mut self, lo: i64, hi: i64) -> (r: i64) {
        if lo < hi {
            rand_below(lo, hi)
        } else {
            lo
        }
    }
}

/// One entry of the log an execution returns.
pub enum Event {
    Tension { value: i64 },
    Drifted { param: Vec<u8>, value: i64 },
    Resolved { coherence: i64 },
    Defined { primitive: Vec<u8>, action: Vec<u8> },
    Acted { action: Vec<u8>, v0: i64, v1: i64 },
}

pub open spec fn event_view(e: Event) -> EventV {
    match e {
        Event::Tension { value } => EventV::Tension { value: value as int },
        Event::Drifted { param, value } => EventV::Drifted {
            param: param@,
            value: value as int,
        },
        Event::Resolved { coherence } => EventV::Resolved { coherence: coherence as int },
        Event::Defined { primitive, action } => EventV::Defined {
            primitive: primitive@,
            action: action@,
        },
        Event::Acted { action, v0, v1 } => EventV::Acted {
            action: action@,
            v0: v0 as int,
            v1: v1 as int,
        },
    }
}

pub open spec fn events_view(es: Seq<Event>) -> Seq<EventV> {
    es.map(|i: int, e: Event| event_view(e))
}

/// Whether a log entry belongs to the observer channel: recorded tensions,
/// successful resolves and defined primitives do; actuation requests and
/// drift candidates are execution-log entries only.
pub open spec fn is_observer_event(e: EventV) -> bool {
    match e {
        EventV::Tension { .. } => true,
        EventV::Resolved { .. } => true,
        EventV::Defined { .. } => true,
        _ => false,
    }
}

/// The observer channel of a log: its observer entries, in order.
pub open spec fn observer_view(es: Seq<EventV>) -> Seq<EventV>
    decreases es,
{
    if es.len() == 0 {
        Seq::empty()
    } else if is_observer_event(es.last()) {
        observer_view(es.drop_last()).push(es.last())
    } else {
        observer_view(es.drop_last())
    }
}

proof fn lemma_observer_view_push(es: Seq<EventV>, e: EventV)
    ensures
        is_observer_event(e) ==> observer_view(es.push(e)) == observer_view(es).push(e),
        !is_observer_event(e) ==> observer_view(es.push(e)) == observer_view(es),
{
    assert(es.push(e).last() == e);
    assert(es.push(e).drop_last() =~= es);
}

/// Projects the observer channel out of an execution log: one entry per
/// recorded tension, per successful resolve and per defined primitive, in
/// execution order, with actuation requests and drift candidates left out.
pub fn observer_events(events: &Vec<Event>) -> (r: Vec<Event>)
    ensures
        events_view(r@) == observer_view(events_view(events@)),
{
    let mut out: Vec<Event> = Vec::new();
    let mut i: usize = 0;
    proof {
        assert(events_view(events@.take(0)) =~= Seq::<EventV>::empty());
    }
    while i < events.len()
        invariant
            i <= events@.len(),
            events_view(out@) == observer_view(events_view(events@.take(i as int))),
        decreases events@.len() - i,
    {
        let keep = match &events[i] {
            Event::Tension { .. } => true,
            Event::Resolved { .. } => true,
            Event::Defined { .. } => true,
            _ => false,
        };
        proof {
            assert(events@.take(i as int + 1) =~= events@.take(i as int).push(
                events@[i as int],
            ));
            lemma_events_view_push(events@.take(i as int), events@[i as int]);
            lemma_observer_view_push(
                events_view(events@.take(i as int)),
                event_view(events@[i as int]),
            );
        }
        if keep {
            let copied = match &events[i] {
                Event::Tension { value } => Event::Tension { value: *value },
                Event::Resolved { coherence } => Event::Resolved { coherence: *coherence },
                Event::Defined { primitive, action } => Event::Defined {
                    primitive: copy_bytes(primitive.as_slice()),
                    action: copy_bytes(action.as_slice()),
                },
                _ => Event::Tension { value: 0 },
            };
            proof {
                lemma_events_view_push(out@, copied);
                assert(event_view(copied) == event_view(events@[i as int]));
            }
            out.push(copied);
        }
        i = i + 1;
    }
    proof {
        assert(events@.take(events@.len() as int) =~= events@);
    }
    out
}

/// A parsed program, ready to execute.
pub struct Program {
    pub stmts: Vec<Statement>,
}

impl View for Program {
    type V = Seq<crate::ast::StmtV>;

    open spec fn view(&self) -> Seq<crate::ast::StmtV> {
        block_view(self.stmts@)
    }
}

pub open spec fn int_model(m: Map<Seq<u8>, i64>) -> Map<Seq<u8>, int> {
    Map::new(|k: Seq<u8>| m.contains_key(k), |k: Seq<u8>| m[k] as int)
}

pub open spec fn int_hist(h: Seq<i64>) -> Seq<int> {
    h.map(|i: int, v: i64| v as int)
}

proof fn lemma_int_model_insert(m: Map<Seq<u8>, i64>, k: Seq<u8>, v: i64)
    ensures
        int_model(m.insert(k, v)) == int_model(m).insert(k, v as int),
{
    assert(int_model(m.insert(k, v)) =~= int_model(m).insert(k, v as int));
}

proof fn lemma_int_hist_push(h: Seq<i64>, v: i64)
    ensures
        int_hist(h.push(v)) == int_hist(h).push(v as int),
{
    assert(int_hist(h.push(v)) =~= int_hist(h).push(v as int));
}

proof fn lemma_events_view_push(es: Seq<Event>, e: Event)
    ensures
        events_view(es.push(e)) == events_view(es).push(event_view(e)),
{
    assert forall|i: int| 0 <= i < es.push(e).len() implies events_view(es.push(e))[i]
        == events_view(es).push(event_view(e))[i] by {
        if i < es.len() {
            assert(es.push(e)[i] == es[i]);
        } else {
            assert(es.push(e)[i] == e);
        }
    }
    assert(events_view(es.push(e)) =~= events_view(es).push(event_view(e)));
}

proof fn lemma_hist_sum_snoc(h: Seq<int>, v: int)
    ensures
        hist_sum(h.push(v)) == hist_sum(h) + v,
    decreases h,
{
    assert(h.push(v).len() == h.len() + 1);
    assert(hist_sum(h.push(v)) == h.push(v)[0] + hist_sum(h.push(v).drop_first()));
    if h.len() == 0 {
        assert(h.push(v)[0] == v);
        assert(h.push(v).drop_first() =~= Seq::<int>::empty());
    } else {
        assert(h.push(v)[0] == h[0]);
        assert(h.push(v).drop_first() =~= h.drop_first().push(v));
        lemma_hist_sum_snoc(h.drop_first(), v);
    }
}

/// The exact characters of ".created".
fn created_suffix_x() -> (r: Vec<u8>)
    ensures
        r@ == created_suffix(),
{
    let mut out: Vec<u8> = Vec::new();
    out.push('.' as u8);
    out.push('c' as u8);
    out.push('r' as u8);
    out.push('e' as u8);
    out.push('a' as u8);
    out.push('t' as u8);
    out.push('e' as u8);
    out.push('d' as u8);
    proof {
        assert(out@ =~= created_suffix());
    }
    out
}

/// The WeaveLang interpreter: the scalar model, the vector model, the
/// tension history, the coherence value and the primitive table, together
/// with the execution of parsed programs against them.
pub struct WeaveLang {
    model: Dict<i64>,
    vector_model: Dict<Vec<i64>>,
    tension_history: Vec<i64>,
    coherence: i64,
    primitives: Dict<Vec<u8>>,
}

impl WeaveLang {
    /// The abstract state that contracts speak about.
    pub closed spec fn state(&self) -> StateV {
        StateV {
            model: int_model(self.model@),
            history: int_hist(self.tension_history@),
            coherence: self.coherence as int,
            primitives: self.primitives@,
        }
    }

    /// The vector model, which statements never touch; the host reads and
    /// seeds it around executions.
    pub closed spec fn vectors(&self) -> Map<Seq<u8>, Seq<i64>> {
        self.vector_model@
    }

    pub closed spec fn wf(&self) -> bool {
        &&& self.model.wf()
        &&& self.vector_model.wf()
        &&& self.primitives.wf()
        &&& state_wf(self.state())
    }

    pub fn new() -> (r: Self)
        ensures
            r.wf(),
            r.state() == empty_state(),
            r.vectors() == Map::<Seq<u8>, Seq<i64>>::empty(),
    {
        let r = WeaveLang {
            model: Dict::new(),
            vector_model: Dict::new(),
            tension_history: Vec::new(),
            coherence: 0,
            primitives: Dict::new(),
        };
        proof {
            assert(r.state().model =~= empty_state().model);
            assert(r.state().history =~= empty_state().history);
            assert(r.state().primitives =~= empty_state().primitives);
        }
        r
    }

    /// A model read; a never-written name reads as zero.
    pub fn model_get(&self, name: &[u8]) -> (v: i64)
        requires
            self.wf(),
        ensures
            v as int == model_get0(self.state().model, name@),
            -(SCALAR_MAX as int) <= v as int <= SCALAR_MAX as int,
    {
        match self.model.get(name) {
            Some(v) => {
                proof {
                    assert(self.state().model.contains_key(name@));
                    assert(self.state().model[name@] == *v as int);
                }
                *v
            },
            None => 0,
        }
    }

    /// Seeds or overwrites a model entry; the value saturates to the
    /// representable scalar range.
    pub fn model_set(&mut self, name: &[u8], value: i64)
        requires
            old(self).wf(),
        ensures
            final(self).wf(),
            final(self).state() == (StateV {
                model: old(self).state().model.insert(name@, clamp_s(value as int)),
                ..old(self).state()
            }),
            final(self).vectors() == old(self).vectors(),
    {
        let c = clamp_scalar(value);
        self.model.set(name, c);
        proof {
            lemma_int_model_insert(old(self).model@, name@, c);
        }
    }

    /// Seeds or overwrites a vector entry.
    pub fn vector_set(&mut self, name: &[u8], value: Vec<i64>)
        requires
            old(self).wf(),
        ensures
            final(self).wf(),
            final(self).state() == old(self).state(),
            final(self).vectors() == old(self).vectors().insert(name@, value@),
    {
        proof {
            assert(value.deep_view() =~= value@);
        }
        self.vector_model.set(name, value);
    }

    pub fn vector_get(&self, name: &[u8]) -> (r: Option<&Vec<i64>>)
        requires
            self.wf(),
        ensures
            match r {
                Some(v) => self.vectors().contains_key(name@) && v@ == self.vectors()[name@],
                None => !self.vectors().contains_key(name@),
            },
    {
        let r = self.vector_model.get(name);
        proof {
            match r {
                Some(v) => {
                    assert(v.deep_view() =~= v@);
                },
                None => {},
            }
        }
        r
    }

    pub fn primitive_get(&self, name: &[u8]) -> (r: Option<&Vec<u8>>)
        requires
            self.wf(),
        ensures
            match r {
                Some(a) => self.state().primitives.contains_key(name@) && a@
                    == self.state().primitives[name@],
                None => !self.state().primitives.contains_key(name@),
            },
    {
        let r = self.primitives.get(name);
        proof {
            match r {
                Some(a) => {
                    assert(a.deep_view() =~= a@);
                },
                None => {},
            }
        }
        r
    }

    pub fn coherence(&self) -> (r: i64)
        ensures
            r as int == self.state().coherence,
    {
        self.coherence
    }

    pub fn history_len(&self) -> (n: usize)
        ensures
            n == self.state().history.len(),
    {
        self.tension_history.len()
    }

    pub fn history_at(&self, i: usize) -> (v: i64)
        requires
            i < self.state().history.len(),
        ensures
            v as int == self.state().history[i as int],
    {
        self.tension_history[i]
    }

    /// The half-width of the next drift draw, computed from the mean of the
    /// recorded tensions.
    fn drift_half_width(&self) -> (r: i64)
        requires
            self.wf(),
        ensures
            r as int == drift_range(self.state().history),
            0 <= r as int <= TENSION_MAX as int,
    {
        if self.tension_history.len() == 0 {
            DRIFT_DEFAULT_RANGE
        } else {
            let ghost hv = int_hist(self.tension_history@);
            let mut sum: u128 = 0;
            let mut i: usize = 0;
            while i < self.tension_history.len()
                invariant
                    self.wf(),
                    hv == int_hist(self.tension_history@),
                    i <= self.tension_history@.len(),
                    sum as int == hist_sum(hv.take(i as int)),
                    0 <= sum as int <= i as int * (TENSION_MAX as int),
                decreases self.tension_history@.len() - i,
            {
                let v = self.tension_history[i];
                proof {
                    assert(self.state().history[i as int] == v as int);
                    assert(hv.take(i as int + 1) =~= hv.take(i as int).push(v as int));
                    lemma_hist_sum_snoc(hv.take(i as int), v as int);
                }
                sum = sum + (v as u128);
                i = i + 1;
            }
            proof {
                assert(hv.take(self.tension_history@.len() as int) =~= hv);
            }
            let n = self.tension_history.len();
            let mean: u128 = sum / (n as u128);
            proof {
                assert(hist_sum(hv) / (hv.len() as int) <= TENSION_MAX as int) by {
                    assert(hist_sum(hv) <= hv.len() as int * (TENSION_MAX as int));
                    vstd::arithmetic::div_mod::lemma_div_is_ordered(
                        hist_sum(hv),
                        hv.len() as int * (TENSION_MAX as int),
                        hv.len() as int,
                    );
                    vstd::arithmetic::div_mod::lemma_div_by_multiple(
                        TENSION_MAX as int,
                        hv.len() as int,
                    );
                }
            }
            let width: u128 = mean / 10;
            width as i64
        }
    }

    /// The drift computation: the current model value plus a bounded random
    /// draw. It reads the state and draws; it changes nothing.
    fn drift_value<N: Noise>(&self, noise: &mut N, param: &[u8]) -> (res: (i64, Ghost<int>))
        requires
            self.wf(),
        ensures
            res.0 as int == drift_candidate(
                self.state().model,
                param@,
                self.state().history,
                res.1@,
            ),
            -(SCALAR_MAX as int) <= res.0 as int <= SCALAR_MAX as int,
    {
        let base = self.model_get(param);
        let range = self.drift_half_width();
        let draw = noise.draw(-range, range);
        let cand = clamp_scalar(base + draw);
        proof {
            assert(clamp_to(-range as int, range as int, draw as int) == draw as int);
        }
        (cand, Ghost(draw as int))
    }

    /// Executes one statement, returning the oracle values it consumed.
    fn run_stmt_x<H: Host, N: Noise>(
        &mut self,
        s: &Statement,
        host: &mut H,
        noise: &mut N,
        events: &mut Vec<Event>,
    ) -> (tr: Ghost<Seq<int>>)
        requires
            old(self).wf(),
        ensures
            final(self).wf(),
            final(self).vectors() == old(self).vectors(),
            ({
                let r = run_stmt(old(self).state(), stmt_view(*s), tr@);
                &&& r.state == final(self).state()
                &&& r.used == tr@.len()
                &&& events_view(final(events)@) == events_view(old(events)@) + r.events
            }),
        decreases stmt_size(stmt_view(*s)), 0nat, 0nat,
    {
        let ghost evs0 = events@;
        match s {
            Statement::Field { name } => {
                let mut key = copy_bytes(name.as_slice());
                let suffix = created_suffix_x();
                push_bytes(&mut key, suffix.as_slice());
                self.model.set(key.as_slice(), SCALE);
                proof {
                    lemma_int_model_insert(old(self).model@, key@, SCALE);
                    assert(events_view(evs0) + Seq::<EventV>::empty() =~= events_view(evs0));
                }
                Ghost(Seq::empty())
            },
            Statement::Tension { sensor, cmp, param, action, v0, v1 } => {
                let raw = host.sense(sensor.as_slice());
                let obs = clamp_scalar(raw);
                let exp = self.model_get(param.as_slice());
                let t = scalar_distance(obs, exp);
                proof {
                    lemma_int_hist_push(self.tension_history@, t);
                }
                self.tension_history.push(t);
                let fire = match cmp {
                    Cmp::Lt => obs < exp,
                    Cmp::Gt => obs > exp,
                };
                if fire {
                    host.act(action.as_slice(), *v0, *v1);
                    let acted = Event::Acted {
                        action: copy_bytes(action.as_slice()),
                        v0: *v0,
                        v1: *v1,
                    };
                    proof {
                        lemma_events_view_push(events@, acted);
                    }
                    events.push(acted);
                }
                let tension_event = Event::Tension { value: t };
                proof {
                    lemma_events_view_push(events@, tension_event);
                }
                events.push(tension_event);
                proof {
                    let r = run_stmt(old(self).state(), stmt_view(*s), seq![raw as int]);
                    if tension_fires(stmt_view(*s)->Tension_cmp, clamp_s(raw as int), model_get0(
                        old(self).state().model,
                        param@,
                    )) {
                        assert(events_view(evs0) + r.events =~= events_view(evs0).push(
                            r.events[0],
                        ).push(r.events[1]));
                    } else {
                        assert(events_view(evs0) + r.events =~= events_view(evs0).push(
                            r.events[0],
                        ));
                    }
                }
                Ghost(Seq::empty().push(raw as int))
            },
            Statement::Drift { param } => {
                let (cand, g) = self.drift_value(noise, param.as_slice());
                let drifted = Event::Drifted { param: copy_bytes(param.as_slice()), value: cand };
                proof {
                    lemma_events_view_push(events@, drifted);
                }
                events.push(drifted);
                proof {
                    let r = run_stmt(old(self).state(), stmt_view(*s), seq![g@]);
                    assert(events_view(evs0) + r.events =~= events_view(evs0).push(r.events[0]));
                }
                Ghost(Seq::empty().push(g@))
            },
            Statement::Resolve { sensor, param } => {
                let raw = host.sense(sensor.as_slice());
                let obs = clamp_scalar(raw);
                let (cand, g) = self.drift_value(noise, param.as_slice());
                let t = scalar_distance(obs, cand);
                if t < RESOLVE_LIMIT {
                    self.model.set(param.as_slice(), cand);
                    proof {
                        lemma_int_model_insert(old(self).model@, param@, cand);
                    }
                    let denom: u64 = (SCALE + t) as u64;
                    let coh_u: u64 = (SCALE as u64 * SCALE as u64) / denom;
                    proof {
                        vstd::arithmetic::div_mod::lemma_div_pos_is_pos(
                            SCALE as int * SCALE as int,
                            denom as int,
                        );
                        vstd::arithmetic::div_mod::lemma_div_is_ordered_by_denominator(
                            SCALE as int * SCALE as int,
                            SCALE as int,
                            denom as int,
                        );
                    }
                    let coh: i64 = coh_u as i64;
                    self.coherence = coh;
                    let resolved = Event::Resolved { coherence: coh };
                    proof {
                        lemma_events_view_push(events@, resolved);
                    }
                    events.push(resolved);
                    proof {
                        let r = run_stmt(old(self).state(), stmt_view(*s), seq![raw as int, g@]);
                        assert(events_view(evs0) + r.events =~= events_view(evs0).push(
                            r.events[0],
                        ));
                    }
                } else {
                    proof {
                        assert(events_view(evs0) + Seq::<EventV>::empty() =~= events_view(evs0));
                    }
                }
                Ghost(Seq::empty().push(raw as int).push(g@))
            },
            Statement::Metaweave { primitive, action } => {
                let stored = copy_bytes(action.as_slice());
                proof {
                    assert(stored.deep_view() =~= action@);
                }
                self.primitives.set(primitive.as_slice(), stored);
                let defined = Event::Defined {
                    primitive: copy_bytes(primitive.as_slice()),
                    action: copy_bytes(action.as_slice()),
                };
                proof {
                    lemma_events_view_push(events@, defined);
                }
                events.push(defined);
                proof {
                    let r = run_stmt(old(self).state(), stmt_view(*s), Seq::empty());
                    assert(events_view(evs0) + r.events =~= events_view(evs0).push(r.events[0]));
                }
                Ghost(Seq::empty())
            },
            Statement::Extend { field, param, value, condition } => {
                if *condition {
                    let mut key = copy_bytes(field.as_slice());
                    key.push('.' as u8);
                    push_bytes(&mut key, param.as_slice());
                    proof {
                        assert(key@ =~= joined_key(field@, param@));
                    }
                    let c = clamp_scalar(*value);
                    self.model.set(key.as_slice(), c);
                    proof {
                        lemma_int_model_insert(old(self).model@, key@, c);
                    }
                }
                proof {
                    assert(events_view(evs0) + Seq::<EventV>::empty() =~= events_view(evs0));
                }
                Ghost(Seq::empty())
            },
            Statement::Loop { count, body } => {
                proof {
                    assert(stmt_size(stmt_view(*s)) == 2 + block_size(block_view(body@)));
                }
                let c: u64 = *count;
                let ghost st0 = self.state();
                let ghost bodyv = block_view(body@);
                let mut acc: Ghost<Seq<int>> = Ghost(Seq::empty());
                proof {
                    assert(events_view(evs0) + Seq::<EventV>::empty() =~= events_view(evs0));
                }
                let mut i: u64 = 0;
                while i < c
                    invariant
                        i <= c,
                        self.wf(),
                        self.vectors() == old(self).vectors(),
                        st0 == old(self).state(),
                        bodyv == block_view(body@),
                        stmt_size(stmt_view(*s)) == 2 + block_size(block_view(body@)),
                        ({
                            let r = run_repeat(st0, bodyv, i as nat, acc@);
                            &&& r.state == self.state()
                            &&& r.used == acc@.len()
                            &&& events_view(events@) == events_view(evs0) + r.events
                        }),
                    decreases c - i,
                {
                    let ghost acc_before = acc@;
                    proof {
                        assert(stmt_size(stmt_view(*s)) == 2 + block_size(block_view(body@)));
                    }
                    let tr_b = self.run_block_x(body, host, noise, events);
                    proof {
                        lemma_repeat_step(st0, bodyv, i as nat, acc_before, tr_b@);
                        let r_old = run_repeat(st0, bodyv, i as nat, acc_before);
                        let r_blk = run_block(r_old.state, bodyv, tr_b@);
                        assert(events_view(evs0) + (r_old.events + r_blk.events) =~= (
                        events_view(evs0) + r_old.events) + r_blk.events);
                    }
                    acc = Ghost(acc@ + tr_b@);
                    i = i + 1;
                }
                acc
            },
        }
    }

    /// Executes a sequence of statements in order, returning the oracle
    /// values consumed.
    fn run_block_x<H: Host, N: Noise>(
        &mut self,
        stmts: &Vec<Statement>,
        host: &mut H,
        noise: &mut N,
        events: &mut Vec<Event>,
    ) -> (tr: Ghost<Seq<int>>)
        requires
            old(self).wf(),
        ensures
            final(self).wf(),
            final(self).vectors() == old(self).vectors(),
            ({
                let r = run_block(old(self).state(), block_view(stmts@), tr@);
                &&& r.state == final(self).state()
                &&& r.used == tr@.len()
                &&& events_view(final(events)@) == events_view(old(events)@) + r.events
            }),
        decreases block_size(block_view(stmts@)), 1nat, stmts@.len(),
    {
        let ghost st0 = self.state();
        let ghost bv = block_view(stmts@);
        let ghost evs0 = events@;
        let mut acc: Ghost<Seq<int>> = Ghost(Seq::empty());
        proof {
            lemma_block_view_len(stmts@);
            assert(bv.take(0) =~= Seq::<StmtV>::empty());
            assert(events_view(evs0) + Seq::<EventV>::empty() =~= events_view(evs0));
        }
        let mut i: usize = 0;
        while i < stmts.len()
            invariant
                i <= stmts@.len(),
                self.wf(),
                self.vectors() == old(self).vectors(),
                st0 == old(self).state(),
                bv == block_view(stmts@),
                bv.len() == stmts@.len(),
                forall|j: int| 0 <= j < stmts@.len() ==> bv[j] == stmt_view(stmts@[j]),
                ({
                    let r = run_block(st0, bv.take(i as int), acc@);
                    &&& r.state == self.state()
                    &&& r.used == acc@.len()
                    &&& events_view(events@) == events_view(evs0) + r.events
                }),
            decreases stmts@.len() - i,
        {
            proof {
                crate::ast::lemma_block_size_element(bv, i as int);
            }
            let ghost acc_before = acc@;
            let tr_s = self.run_stmt_x(&stmts[i], host, noise, events);
            proof {
                lemma_block_step(st0, bv.take(i as int), bv[i as int], acc_before, tr_s@);
                assert(bv.take(i as int).push(bv[i as int]) =~= bv.take(i as int + 1));
                let r_old = run_block(st0, bv.take(i as int), acc_before);
                let r_s = run_stmt(r_old.state, bv[i as int], tr_s@);
                assert(events_view(evs0) + (r_old.events + r_s.events) =~= (events_view(evs0)
                    + r_old.events) + r_s.events);
            }
            acc = Ghost(acc@ + tr_s@);
            i = i + 1;
        }
        proof {
            assert(bv.take(stmts@.len() as int) =~= bv);
        }
        acc
    }

    /// Executes a parsed program. The returned log holds one entry per
    /// recorded tension, per drift, per successful resolve, per defined
    /// primitive and per requested actuation, in execution order;
    /// `observer_events` projects the observer channel out of it. The final
    /// state and the log are exactly the run of the program under some
    /// oracle trace: the sequence of sensor readings and random draws that
    /// the host and the noise source answered.
    pub fn run<H: Host, N: Noise>(
        &mut self,
        program: &Program,
        host: &mut H,
        noise: &mut N,
    ) -> (events: Vec<Event>)
        requires
            old(self).wf(),
        ensures
            final(self).wf(),
            final(self).vectors() == old(self).vectors(),
            exists|tr: Seq<int>|
                {
                    let r = #[trigger] run_block(old(self).state(), program@, tr);
                    &&& r.state == final(self).state()
                    &&& r.used == tr.len()
                    &&& events_view(events@) == r.events
                },
    {
        let mut events: Vec<Event> = Vec::new();
        let tr = self.run_block_x(&program.stmts, host, noise, &mut events);
        proof {
            assert(program@ == block_view(program.stmts@));
            let r = run_block(old(self).state(), program@, tr@);
            assert(events_view(Seq::<Event>::empty()) + r.events =~= r.events);
            assert(events_view(events@) == r.events);
        }
        events
    }

    /// Parses and executes a source text in one call. The whole text is
    /// parsed before anything runs, so a malformed program, or one nested
    /// too deeply, reports its error and leaves every structure untouched;
    /// a text that does not even lex is always refused. On success the
    /// statements that ran are exactly a program that the text's own tokens
    /// spell, and the final state and log are its run under some oracle
    /// trace, as with `run`.
    pub fn execute<H: Host, N: Noise>(
        &mut self,
        code: &[u8],
        host: &mut H,
        noise: &mut N,
    ) -> (r: Result<Vec<Event>, crate::parser::WeaveError>)
        requires
            old(self).wf(),
        ensures
            final(self).wf(),
            final(self).vectors() == old(self).vectors(),
            r is Err ==> *final(self) == *old(self),
            crate::parser::lex_spec(code@, 0) is None ==> r is Err,
            crate::parser::lex_spec(code@, 0) == Some(Seq::<crate::parser::TokV>::empty())
                ==> r is Ok,
            r is Err ==> crate::parser::lex_spec(code@, 0) is None || (crate::parser::lex_spec(
                code@,
                0,
            ) matches Some(tvs) && forall|bx: Seq<StmtV>|
                #[trigger] crate::parser::block_from_tokens(tvs, 0, bx)
                    && crate::parser::block_end(0, bx) == tvs.len() ==> (
                crate::parser::MAX_DEPTH as int) < crate::parser::block_depth(bx)),
            r is Ok ==> (crate::parser::lex_spec(code@, 0) matches Some(tvs)
                && exists|prog: Seq<StmtV>, tr: Seq<int>|
                {
                    let rr = #[trigger] run_block(old(self).state(), prog, tr);
                    &&& crate::parser::block_from_tokens(tvs, 0, prog)
                    &&& crate::parser::block_end(0, prog) == tvs.len()
                    &&& rr.state == final(self).state()
                    &&& rr.used == tr.len()
                    &&& events_view(r->Ok_0@) == rr.events
                }),
    {
        let program = match crate::parser::parse(code) {
            Ok(p) => p,
            Err(e) => {
                return Err(e);
            },
        };
        let events = self.run(&program, host, noise);
        Ok(events)
    }
}

} // verus!
