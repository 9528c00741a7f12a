use vstd::prelude::*;

use crate::ast::{block_size, stmt_size, Cmp, StmtV};
use crate::scalar::{
    clamp_s, clamp_to, sabs, DRIFT_DEFAULT_RANGE, RESOLVE_LIMIT, SCALAR_MAX, SCALE, TENSION_MAX,
};

verus! {

/// The abstract interpreter state: the scalar model, the tension history,
/// the coherence value and the primitive table. The vector model is absent
/// here because no statement reads or writes it.
pub ghost struct StateV {
    pub model: Map<Seq<u8>, int>,
    pub history: Seq<int>,
    pub coherence: int,
    pub primitives: Map<Seq<u8>, Seq<u8>>,
}

/// One entry of the log that an execution emits, in execution order:
/// a recorded tension, a drift candidate, a successful resolve, a defined
/// primitive, or a requested actuation.
pub ghost enum EventV {
    Tension { value: int },
    Drifted { param: Seq<u8>, value: int },
    Resolved { coherence: int },
    Defined { primitive: Seq<u8>, action: Seq<u8> },
    Acted { action: Seq<u8>, v0: int, v1: int },
}

/// The outcome of running statements: the new state, the emitted events,
/// and how many oracle values (sensor readings and random draws) were read
/// off the trace.
pub ghost struct Run {
    pub state: StateV,
    pub events: Seq<EventV>,
    pub used: nat,
}

pub open spec fn trace_at(tr: Seq<int>, i: int) -> int {
    if 0 <= i < tr.len() {
        tr[i]
    } else {
        0
    }
}

pub open spec fn trace_skip(tr: Seq<int>, n: nat) -> Seq<int> {
    if n <= tr.len() {
        tr.skip(n as int)
    } else {
        Seq::empty()
    }
}

/// A model read: an unwritten key yields zero.
pub open spec fn model_get0(m: Map<Seq<u8>, int>, k: Seq<u8>) -> int {
    if m.contains_key(k) {
        m[k]
    } else {
        0
    }
}

/// The characters of ".created".
pub open spec fn created_suffix() -> Seq<u8> {
    seq![46u8, 99u8, 114u8, 101u8, 97u8, 116u8, 101u8, 100u8]
}

/// The model key that a field declaration marks.
pub open spec fn created_key(name: Seq<u8>) -> Seq<u8> {
    name + created_suffix()
}

/// The model key that an extend statement writes: field, dot, parameter.
pub open spec fn joined_key(field: Seq<u8>, param: Seq<u8>) -> Seq<u8> {
    field + seq![46u8] + param
}

pub open spec fn hist_sum(h: Seq<int>) -> int
    decreases h,
{
    if h.len() == 0 {
        0
    } else {
        h[0] + hist_sum(h.drop_first())
    }
}

/// Half-width of the uniform drift draw: half a unit while no tension was
/// ever recorded, else a tenth of the mean recorded tension.
pub open spec fn drift_range(h: Seq<int>) -> int {
    if h.len() == 0 {
        DRIFT_DEFAULT_RANGE as int
    } else {
        (hist_sum(h) / h.len() as int) / 10
    }
}

/// The candidate value a drift proposes: the current model value plus a
/// draw confined to the drift range, saturated to the scalar bound.
pub open spec fn drift_candidate(
    m: Map<Seq<u8>, int>,
    param: Seq<u8>,
    h: Seq<int>,
    draw: int,
) -> int {
    let base = model_get0(m, param);
    let range = drift_range(h);
    clamp_s(base + clamp_to(-range, range, draw))
}

/// The coherence a successful resolve records: the inverse of one plus the
/// tension, in fixed-point form. The division floors, so the stored value
/// sits at most one quantum below the real-valued quotient.
pub open spec fn coherence_of(t: int) -> int {
    (SCALE as int * SCALE as int) / (SCALE as int + t)
}

/// Whether a tension rule fires its action.
pub open spec fn tension_fires(cmp: Cmp, obs: int, exp: int) -> bool {
    (cmp == Cmp::Lt && obs < exp) || (cmp == Cmp::Gt && obs > exp)
}

/// Executes one statement. The trace holds the oracle values in the order
/// they are read: each sensor reading, then each random draw, saturated to
/// the scalar range exactly as the running interpreter saturates them.
pub open spec fn run_stmt(st: StateV, s: StmtV, tr: Seq<int>) -> Run
    decreases stmt_size(s), 0nat, 0nat,
{
    match s {
        StmtV::Field { name } => Run {
            state: StateV { model: st.model.insert(created_key(name), SCALE as int), ..st },
            events: Seq::empty(),
            used: 0,
        },
        StmtV::Tension { sensor, cmp, param, action, v0, v1 } => {
            let obs = clamp_s(trace_at(tr, 0));
            let exp = model_get0(st.model, param);
            let t = sabs(obs - exp);
            let evs = if tension_fires(cmp, obs, exp) {
                seq![EventV::Acted { action, v0, v1 }, EventV::Tension { value: t }]
            } else {
                seq![EventV::Tension { value: t }]
            };
            Run {
                state: StateV { history: st.history.push(t), ..st },
                events: evs,
                used: 1,
            }
        },
        StmtV::Drift { param } => {
            let cand = drift_candidate(st.model, param, st.history, trace_at(tr, 0));
            Run {
                state: st,
                events: seq![EventV::Drifted { param, value: cand }],
                used: 1,
            }
        },
        StmtV::Resolve { sensor, param } => {
            let obs = clamp_s(trace_at(tr, 0));
            let cand = drift_candidate(st.model, param, st.history, trace_at(tr, 1));
            let t = sabs(obs - cand);
            if t < RESOLVE_LIMIT as int {
                let coh = coherence_of(t);
                Run {
                    state: StateV {
                        model: st.model.insert(param, cand),
                        coherence: coh,
                        ..st
                    },
                    events: seq![EventV::Resolved { coherence: coh }],
                    used: 2,
                }
            } else {
                Run { state: st, events: Seq::empty(), used: 2 }
            }
        },
        StmtV::Metaweave { primitive, action } => Run {
            state: StateV { primitives: st.primitives.insert(primitive, action), ..st },
            events: seq![EventV::Defined { primitive, action }],
            used: 0,
        },
        StmtV::Extend { field, param, value, condition } => Run {
            state: if condition {
                StateV {
                    model: st.model.insert(joined_key(field, param), clamp_s(value)),
                    ..st
                }
            } else {
                st
            },
            events: Seq::empty(),
            used: 0,
        },
        StmtV::Loop { count, body } => run_repeat(st, body, count, tr),
    }
}

/// Executes a sequence of statements in order, threading state, events and
/// the oracle trace.
pub open spec fn run_block(st: StateV, stmts: Seq<StmtV>, tr: Seq<int>) -> Run
    decreases block_size(stmts), 1nat, stmts.len(),
{
    if stmts.len() == 0 {
        Run { state: st, events: Seq::empty(), used: 0 }
    } else {
        let r1 = run_stmt(st, stmts[0], tr);
        let r2 = run_block(r1.state, stmts.drop_first(), trace_skip(tr, r1.used));
        Run { state: r2.state, events: r1.events + r2.events, used: r1.used + r2.used }
    }
}

/// Executes a statement block `n` times in sequence.
pub open spec fn run_repeat(st: StateV, body: Seq<StmtV>, n: nat, tr: Seq<int>) -> Run
    decreases block_size(body) + 1, 0nat, n,
{
    if n == 0 {
        Run { state: st, events: Seq::empty(), used: 0 }
    } else {
        let r1 = run_block(st, body, tr);
        let r2 = run_repeat(r1.state, body, (n - 1) as nat, trace_skip(tr, r1.used));
        Run { state: r2.state, events: r1.events + r2.events, used: r1.used + r2.used }
    }
}

/// Bounds that every reachable interpreter state satisfies: model values in
/// the scalar range, history entries nonnegative tensions, coherence between
/// zero and one unit.
pub open spec fn state_wf(st: StateV) -> bool {
    &&& forall|k: Seq<u8>| #[trigger]
        st.model.contains_key(k) ==> -(SCALAR_MAX as int) <= st.model[k] <= SCALAR_MAX as int
    &&& forall|i: int| 0 <= i < st.history.len() ==> 0 <= #[trigger] st.history[i] <= TENSION_MAX as int
    &&& 0 <= st.coherence <= SCALE as int
}

pub open spec fn empty_state() -> StateV {
    StateV {
        model: Map::empty(),
        history: Seq::empty(),
        coherence: 0,
        primitives: Map::empty(),
    }
}

} // verus!
