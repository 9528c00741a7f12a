use vstd::prelude::*;

use crate::ast::StmtV;
use crate::compose::{blocks_repeated, lemma_repeat_is_blocks, lemma_trace_skip_zero};
use crate::scalar::{clamp_s, sabs, RESOLVE_LIMIT, SCALAR_MAX, SCALE};
use crate::sem::{
    coherence_of, created_key, drift_candidate, drift_range, joined_key, model_get0, run_block,
    run_stmt, trace_at, EventV, StateV,
};

verus! {

pub open spec fn field_name(s: StmtV) -> Seq<u8> {
    match s {
        StmtV::Field { name } => name,
        _ => Seq::empty(),
    }
}

pub open spec fn stated_param(s: StmtV) -> Seq<u8> {
    match s {
        StmtV::Tension { param, .. } => param,
        StmtV::Drift { param } => param,
        StmtV::Resolve { param, .. } => param,
        _ => Seq::empty(),
    }
}

/// A program made of field declarations alone marks each declared field as
/// created, at one whole unit, and changes nothing else: no other model
/// key, no history entry, no coherence change, no primitive, no event.
pub proof fn law_fields_only(st: StateV, stmts: Seq<StmtV>, tr: Seq<int>)
    requires
        forall|i: int| 0 <= i < stmts.len() ==> stmts[i] is Field,
    ensures
        ({
            let r = run_block(st, stmts, tr);
            &&& r.state.history == st.history
            &&& r.state.coherence == st.coherence
            &&& r.state.primitives == st.primitives
            &&& forall|i: int|
                0 <= i < stmts.len() ==> r.state.model.contains_key(
                    #[trigger] created_key(field_name(stmts[i])),
                ) && r.state.model[created_key(field_name(stmts[i]))] == SCALE as int
            &&& forall|k: Seq<u8>|
                (forall|i: int| 0 <= i < stmts.len() ==> k != created_key(field_name(stmts[i])))
                    ==> (#[trigger] r.state.model.contains_key(k)) == st.model.contains_key(k)
                    && (st.model.contains_key(k) ==> r.state.model[k] == st.model[k])
            &&& r.events == Seq::<EventV>::empty()
            &&& r.used == 0
        }),
    decreases stmts.len(),
{
    if stmts.len() > 0 {
        let r1 = run_stmt(st, stmts[0], tr);
        lemma_trace_skip_zero(tr);
        let rest = stmts.drop_first();
        law_fields_only(r1.state, rest, tr);
        let r = run_block(st, stmts, tr);
        let rr = run_block(r1.state, rest, tr);
        assert(r.events =~= Seq::<EventV>::empty());
        let k0 = created_key(field_name(stmts[0]));
        assert(r1.state.model == st.model.insert(k0, SCALE as int));
        assert forall|i: int|
            0 <= i < stmts.len() implies r.state.model.contains_key(
            created_key(field_name(stmts[i])),
        ) && r.state.model[created_key(field_name(stmts[i]))] == SCALE as int by {
            if i == 0 {
                if forall|j: int|
                    0 <= j < rest.len() ==> k0 != #[trigger] created_key(field_name(rest[j])) {
                    assert(rr.state.model.contains_key(k0) == r1.state.model.contains_key(k0));
                    assert(r1.state.model.contains_key(k0));
                    assert(rr.state.model[k0] == r1.state.model[k0]);
                } else {
                    let j = choose|j: int|
                        0 <= j < rest.len() && k0 == #[trigger] created_key(field_name(rest[j]));
                    assert(rr.state.model.contains_key(created_key(field_name(rest[j]))));
                    assert(rr.state.model[created_key(field_name(rest[j]))] == SCALE as int);
                }
            } else {
                assert(rest[i - 1] == stmts[i]);
                assert(rr.state.model.contains_key(created_key(field_name(rest[i - 1]))));
            }
        }
        assert forall|k: Seq<u8>|
            (forall|i: int| 0 <= i < stmts.len() ==> k != created_key(field_name(stmts[i])))
                implies (#[trigger] r.state.model.contains_key(k)) == st.model.contains_key(k)
                && (st.model.contains_key(k) ==> r.state.model[k] == st.model[k]) by {
            assert(k != created_key(field_name(stmts[0])));
            assert forall|j: int|
                0 <= j < rest.len() implies k != #[trigger] created_key(field_name(rest[j])) by {
                assert(rest[j] == stmts[j + 1]);
            }
            assert(rr.state.model.contains_key(k) == r1.state.model.contains_key(k));
            assert(r1.state.model.contains_key(k) ==> rr.state.model[k] == r1.state.model[k]);
        }
    }
}

/// Every executed tension rule appends exactly one history entry: the
/// distance between the saturated observed reading and the expected model
/// value at the moment of evaluation. Nothing else in the state changes,
/// and the rule always reports that tension.
pub proof fn law_tension_appends(st: StateV, s: StmtV, tr: Seq<int>)
    requires
        s is Tension,
    ensures
        ({
            let r = run_stmt(st, s, tr);
            let obs = clamp_s(trace_at(tr, 0));
            let exp = model_get0(st.model, stated_param(s));
            let t = sabs(obs - exp);
            &&& r.state.history == st.history.push(t)
            &&& r.state.history.len() == st.history.len() + 1
            &&& r.state.model == st.model
            &&& r.state.coherence == st.coherence
            &&& r.state.primitives == st.primitives
            &&& r.events.len() > 0 && r.events.last() == (EventV::Tension { value: t })
        }),
{
}

/// A resolve commits its drifted candidate to the model exactly when the
/// candidate lies strictly within the resolve threshold of the observed
/// reading, and then records the coherence of that fit; otherwise the whole
/// state is untouched. The history never changes either way.
pub proof fn law_resolve(st: StateV, s: StmtV, tr: Seq<int>)
    requires
        s is Resolve,
    ensures
        ({
            let r = run_stmt(st, s, tr);
            let obs = clamp_s(trace_at(tr, 0));
            let cand = drift_candidate(st.model, stated_param(s), st.history, trace_at(tr, 1));
            let t = sabs(obs - cand);
            &&& t < RESOLVE_LIMIT as int ==> r.state.model == st.model.insert(
                stated_param(s),
                cand,
            ) && r.state.coherence == coherence_of(t) && r.events == seq![
                EventV::Resolved { coherence: coherence_of(t) },
            ]
            &&& t >= RESOLVE_LIMIT as int ==> r.state == st && r.events
                == Seq::<EventV>::empty()
            &&& r.state.history == st.history
            &&& r.state.primitives == st.primitives
        }),
{
}

/// A drift statement reads the model and the history and draws a candidate,
/// but mutates nothing: the state after it is the state before it.
pub proof fn law_drift_pure(st: StateV, s: StmtV, tr: Seq<int>)
    requires
        s is Drift,
    ensures
        run_stmt(st, s, tr).state == st,
        run_stmt(st, s, tr).events == seq![
            EventV::Drifted {
                param: stated_param(s),
                value: drift_candidate(st.model, stated_param(s), st.history, trace_at(tr, 0)),
            },
        ],
{
}

/// Where a drift candidate can lie: within the half-width around the
/// current model value, and strictly below the upper edge whenever the
/// draw itself is, as the noise contract guarantees for a nonempty
/// interval. This matches a half-open uniform draw over
/// `[base - range, base + range)`.
pub proof fn law_drift_bounds(m: Map<Seq<u8>, int>, param: Seq<u8>, h: Seq<int>, draw: int)
    requires
        -(SCALAR_MAX as int) <= model_get0(m, param) <= SCALAR_MAX as int,
        0 <= drift_range(h),
        -drift_range(h) <= draw <= drift_range(h),
    ensures
        ({
            let base = model_get0(m, param);
            let range = drift_range(h);
            let cand = drift_candidate(m, param, h, draw);
            &&& base - range <= cand <= base + range
            &&& draw < range ==> cand < base + range
        }),
{
}

/// An extend with a false condition changes nothing at all; with a true
/// condition it writes exactly one model key, the field and parameter
/// joined by a dot, to the saturated value. It never emits an event.
pub proof fn law_extend(st: StateV, field: Seq<u8>, param: Seq<u8>, value: int, condition: bool, tr: Seq<int>)
    ensures
        ({
            let r = run_stmt(st, StmtV::Extend { field, param, value, condition }, tr);
            &&& !condition ==> r.state == st
            &&& condition ==> r.state == (StateV {
                model: st.model.insert(joined_key(field, param), clamp_s(value)),
                ..st
            })
            &&& r.events == Seq::<EventV>::empty()
            &&& r.used == 0
        }),
{
}

/// What a committed resolve's coherence can be. The fixed-point coherence
/// floors `1/(1 + t)`, so against the real-valued quantity it loses at
/// most one quantum: over the committing tensions it stays between a third
/// of a unit (attained, by that flooring, at the largest committing
/// tension) and one unit, and it is one whole unit exactly when the
/// tension is zero.
pub proof fn law_coherence_bounds(t: int)
    requires
        0 <= t < RESOLVE_LIMIT as int,
    ensures
        (SCALE as int) / 3 <= coherence_of(t) <= SCALE as int,
        coherence_of(t) == SCALE as int <==> t == 0,
{
    assert(coherence_of(t) == 1000000int / (1000 + t));
    assert(1000000int / 2999 == 333);
    assert(1000000int / 1000 == 1000);
    assert(1000000int / 1001 == 999);
    assert((1000int) / 3 == 333);
    vstd::arithmetic::div_mod::lemma_div_is_ordered_by_denominator(
        SCALE as int * SCALE as int,
        SCALE as int + t,
        SCALE as int + RESOLVE_LIMIT as int - 1,
    );
    vstd::arithmetic::div_mod::lemma_div_is_ordered_by_denominator(
        SCALE as int * SCALE as int,
        SCALE as int,
        SCALE as int + t,
    );
    if t > 0 {
        vstd::arithmetic::div_mod::lemma_div_is_ordered_by_denominator(
            SCALE as int * SCALE as int,
            SCALE as int + 1,
            SCALE as int + t,
        );
    }
}

/// Running `loop n { body }` is observably the body written out `n` times
/// in a row: same final state, same events, same oracle reads. A count of
/// zero does nothing.
pub proof fn law_loop_unrolls(st: StateV, count: nat, body: Seq<StmtV>, tr: Seq<int>)
    ensures
        run_stmt(st, StmtV::Loop { count, body }, tr) == run_block(
            st,
            blocks_repeated(body, count),
            tr,
        ),
        count == 0 ==> run_stmt(st, StmtV::Loop { count, body }, tr).state == st
            && run_stmt(st, StmtV::Loop { count, body }, tr).events == Seq::<EventV>::empty(),
{
    lemma_repeat_is_blocks(st, body, count, tr);
}

} // verus!
