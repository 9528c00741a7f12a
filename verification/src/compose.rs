use vstd::prelude::*;

use crate::ast::{block_size, stmt_size, StmtV};
use crate::sem::{run_block, run_repeat, run_stmt, trace_skip, Run, StateV};

verus! {

pub proof fn lemma_trace_skip_zero(tr: Seq<int>)
    ensures
        trace_skip(tr, 0) == tr,
{
    assert(trace_skip(tr, 0) =~= tr);
}

pub proof fn lemma_trace_skip_append(tr1: Seq<int>, tr2: Seq<int>, n: nat)
    requires
        n <= tr1.len(),
    ensures
        trace_skip(tr1 + tr2, n) == trace_skip(tr1, n) + tr2,
{
    assert(trace_skip(tr1 + tr2, n) =~= trace_skip(tr1, n) + tr2);
}

pub proof fn lemma_trace_skip_skip(tr: Seq<int>, m: nat, n: nat)
    ensures
        trace_skip(trace_skip(tr, m), n) == trace_skip(tr, m + n),
{
    if m <= tr.len() && n <= tr.len() - m {
        assert(trace_skip(trace_skip(tr, m), n) =~= trace_skip(tr, m + n));
    } else {
        assert(trace_skip(trace_skip(tr, m), n) =~= Seq::<int>::empty());
        assert(trace_skip(tr, m + n) =~= Seq::<int>::empty());
    }
}

/// Feeding a run more trace than it reads changes nothing: the values it
/// reads are the same, and the surplus is never looked at.
pub proof fn lemma_stmt_trace_extend(st: StateV, s: StmtV, tr1: Seq<int>, tr2: Seq<int>)
    requires
        run_stmt(st, s, tr1).used <= tr1.len(),
    ensures
        run_stmt(st, s, tr1 + tr2) == run_stmt(st, s, tr1),
    decreases stmt_size(s), 0nat, 0nat,
{
    match s {
        StmtV::Loop { count, body } => {
            lemma_repeat_trace_extend(st, body, count, tr1, tr2);
        },
        _ => {
            assert(tr1.len() >= run_stmt(st, s, tr1).used);
            assert(forall|i: int|
                0 <= i < run_stmt(st, s, tr1).used ==> (tr1 + tr2)[i] == tr1[i]);
        },
    }
}

pub proof fn lemma_block_trace_extend(st: StateV, stmts: Seq<StmtV>, tr1: Seq<int>, tr2: Seq<int>)
    requires
        run_block(st, stmts, tr1).used <= tr1.len(),
    ensures
        run_block(st, stmts, tr1 + tr2) == run_block(st, stmts, tr1),
    decreases block_size(stmts), 1nat, stmts.len(),
{
    if stmts.len() == 0 {
    } else {
        let r1 = run_stmt(st, stmts[0], tr1);
        lemma_stmt_trace_extend(st, stmts[0], tr1, tr2);
        lemma_trace_skip_append(tr1, tr2, r1.used);
        lemma_block_trace_extend(
            r1.state,
            stmts.drop_first(),
            trace_skip(tr1, r1.used),
            tr2,
        );
    }
}

pub proof fn lemma_repeat_trace_extend(
    st: StateV,
    body: Seq<StmtV>,
    n: nat,
    tr1: Seq<int>,
    tr2: Seq<int>,
)
    requires
        run_repeat(st, body, n, tr1).used <= tr1.len(),
    ensures
        run_repeat(st, body, n, tr1 + tr2) == run_repeat(st, body, n, tr1),
    decreases block_size(body) + 1, 0nat, n,
{
    if n == 0 {
    } else {
        let r1 = run_block(st, body, tr1);
        lemma_block_trace_extend(st, body, tr1, tr2);
        lemma_trace_skip_append(tr1, tr2, r1.used);
        lemma_repeat_trace_extend(
            r1.state,
            body,
            (n - 1) as nat,
            trace_skip(tr1, r1.used),
            tr2,
        );
    }
}

/// Running two blocks one after the other is running their concatenation:
/// the second block starts in the first one's final state and reads the
/// trace where the first one stopped.
pub proof fn lemma_run_block_concat(st: StateV, a: Seq<StmtV>, b: Seq<StmtV>, tr: Seq<int>)
    ensures
        run_block(st, a + b, tr) == ({
            let ra = run_block(st, a, tr);
            let rb = run_block(ra.state, b, trace_skip(tr, ra.used));
            Run { state: rb.state, events: ra.events + rb.events, used: ra.used + rb.used }
        }),
    decreases a.len(),
{
    if a.len() == 0 {
        assert(a + b =~= b);
        lemma_trace_skip_zero(tr);
        let rb = run_block(st, b, tr);
        assert(Seq::<crate::sem::EventV>::empty() + rb.events =~= rb.events);
    } else {
        assert((a + b)[0] == a[0]);
        assert((a + b).drop_first() =~= a.drop_first() + b);
        let r1 = run_stmt(st, a[0], tr);
        lemma_run_block_concat(r1.state, a.drop_first(), b, trace_skip(tr, r1.used));
        let ra2 = run_block(r1.state, a.drop_first(), trace_skip(tr, r1.used));
        lemma_trace_skip_skip(tr, r1.used, ra2.used);
        let ra = run_block(st, a, tr);
        let rb = run_block(ra.state, b, trace_skip(tr, ra.used));
        assert(r1.events + (ra2.events + rb.events) =~= (r1.events + ra2.events) + rb.events);
    }
}

/// A loop body repeated `n` times, written out as one flat block.
pub open spec fn blocks_repeated(body: Seq<StmtV>, n: nat) -> Seq<StmtV>
    decreases n,
{
    if n == 0 {
        Seq::empty()
    } else {
        body + blocks_repeated(body, (n - 1) as nat)
    }
}

/// Loop semantics is nothing but sequencing: repeating a body `n` times
/// equals running the body written out `n` times in a row.
pub proof fn lemma_repeat_is_blocks(st: StateV, body: Seq<StmtV>, n: nat, tr: Seq<int>)
    ensures
        run_repeat(st, body, n, tr) == run_block(st, blocks_repeated(body, n), tr),
    decreases n,
{
    if n == 0 {
    } else {
        let r1 = run_block(st, body, tr);
        lemma_repeat_is_blocks(r1.state, body, (n - 1) as nat, trace_skip(tr, r1.used));
        lemma_run_block_concat(st, body, blocks_repeated(body, (n - 1) as nat), tr);
    }
}

pub proof fn lemma_blocks_repeated_snoc(body: Seq<StmtV>, n: nat)
    ensures
        blocks_repeated(body, n + 1) == blocks_repeated(body, n) + body,
    decreases n,
{
    if n == 0 {
        assert(blocks_repeated(body, 1) == body + blocks_repeated(body, 0));
        assert(blocks_repeated(body, 0) == Seq::<StmtV>::empty());
        assert(body + Seq::<StmtV>::empty() =~= Seq::<StmtV>::empty() + body);
    } else {
        lemma_blocks_repeated_snoc(body, (n - 1) as nat);
        assert(body + (blocks_repeated(body, (n - 1) as nat) + body) =~= (body
            + blocks_repeated(body, (n - 1) as nat)) + body);
    }
}

/// One more round of a loop: if `tr1` is exactly what the first `i` rounds
/// read, round `i + 1` runs the body once more on the remaining trace.
pub proof fn lemma_repeat_step(
    st0: StateV,
    body: Seq<StmtV>,
    i: nat,
    tr1: Seq<int>,
    tr2: Seq<int>,
)
    requires
        run_repeat(st0, body, i, tr1).used == tr1.len(),
    ensures
        run_repeat(st0, body, i + 1, tr1 + tr2) == ({
            let r1 = run_repeat(st0, body, i, tr1);
            let r2 = run_block(r1.state, body, tr2);
            Run {
                state: r2.state,
                events: r1.events + r2.events,
                used: (tr1.len() + r2.used) as nat,
            }
        }),
{
    let r1 = run_repeat(st0, body, i, tr1);
    lemma_repeat_is_blocks(st0, body, i, tr1);
    lemma_repeat_is_blocks(st0, body, i + 1, tr1 + tr2);
    lemma_blocks_repeated_snoc(body, i);
    lemma_run_block_concat(st0, blocks_repeated(body, i), body, tr1 + tr2);
    lemma_block_trace_extend(st0, blocks_repeated(body, i), tr1, tr2);
    lemma_trace_skip_append(tr1, tr2, tr1.len());
    assert(trace_skip(tr1, tr1.len()) + tr2 =~= tr2);
}

/// One more statement of a block: if `tr1` is exactly what the statements
/// so far read, the next statement runs on the remaining trace.
pub proof fn lemma_block_step(
    st0: StateV,
    done: Seq<StmtV>,
    s: StmtV,
    tr1: Seq<int>,
    tr2: Seq<int>,
)
    requires
        run_block(st0, done, tr1).used == tr1.len(),
    ensures
        run_block(st0, done.push(s), tr1 + tr2) == ({
            let r1 = run_block(st0, done, tr1);
            let r2 = run_stmt(r1.state, s, tr2);
            Run {
                state: r2.state,
                events: r1.events + r2.events,
                used: (tr1.len() + r2.used) as nat,
            }
        }),
{
    let r1 = run_block(st0, done, tr1);
    assert(done.push(s) =~= done + seq![s]);
    lemma_run_block_concat(st0, done, seq![s], tr1 + tr2);
    lemma_block_trace_extend(st0, done, tr1, tr2);
    lemma_trace_skip_append(tr1, tr2, tr1.len());
    assert(trace_skip(tr1, tr1.len()) + tr2 =~= tr2);
    let r2 = run_stmt(r1.state, s, tr2);
    assert(seq![s].drop_first() =~= Seq::<StmtV>::empty());
    let r3 = run_block(r2.state, seq![s].drop_first(), trace_skip(tr2, r2.used));
    assert(r2.events + r3.events =~= r2.events);
    assert(r1.events + (r2.events + r3.events) =~= r1.events + r2.events);
}

} // verus!
