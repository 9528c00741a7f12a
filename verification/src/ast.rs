use vstd::prelude::*;

verus! {

/// The comparator of a tension rule.
#[derive(Clone, Copy, PartialEq, Eq, Structural)]
pub enum Cmp {
    Lt,
    Gt,
}

/// One parsed statement. Numeric literals are already fixed-point scalars,
/// the boolean of an `extend` is already decided, and a `loop` carries its
/// fully parsed body.
pub enum Statement {
    Field { name: Vec<u8> },
    Tension { sensor: Vec<u8>, cmp: Cmp, param: Vec<u8>, action: Vec<u8>, v0: i64, v1: i64 },
    Drift { param: Vec<u8> },
    Resolve { sensor: Vec<u8>, param: Vec<u8> },
    Metaweave { primitive: Vec<u8>, action: Vec<u8> },
    Extend { field: Vec<u8>, param: Vec<u8>, value: i64, condition: bool },
    Loop { count: u64, body: Vec<Statement> },
}

/// The mathematical form of a statement, over sequences and unbounded
/// integers.
pub ghost enum StmtV {
    Field { name: Seq<u8> },
    Tension { sensor: Seq<u8>, cmp: Cmp, param: Seq<u8>, action: Seq<u8>, v0: int, v1: int },
    Drift { param: Seq<u8> },
    Resolve { sensor: Seq<u8>, param: Seq<u8> },
    Metaweave { primitive: Seq<u8>, action: Seq<u8> },
    Extend { field: Seq<u8>, param: Seq<u8>, value: int, condition: bool },
    Loop { count: nat, body: Seq<StmtV> },
}

pub open spec fn stmt_view(s: Statement) -> StmtV
    decreases s,
{
    match s {
        Statement::Field { name } => StmtV::Field { name: name@ },
        Statement::Tension { sensor, cmp, param, action, v0, v1 } => StmtV::Tension {
            sensor: sensor@,
            cmp,
            param: param@,
            action: action@,
            v0: v0 as int,
            v1: v1 as int,
        },
        Statement::Drift { param } => StmtV::Drift { param: param@ },
        Statement::Resolve { sensor, param } => StmtV::Resolve { sensor: sensor@, param: param@ },
        Statement::Metaweave { primitive, action } => StmtV::Metaweave {
            primitive: primitive@,
            action: action@,
        },
        Statement::Extend { field, param, value, condition } => StmtV::Extend {
            field: field@,
            param: param@,
            value: value as int,
            condition,
        },
        Statement::Loop { count, body } => StmtV::Loop {
            count: count as nat,
            body: block_view(body@),
        },
    }
}

pub open spec fn block_view(ss: Seq<Statement>) -> Seq<StmtV>
    decreases ss,
{
    if ss.len() == 0 {
        Seq::empty()
    } else {
        seq![stmt_view(ss[0])] + block_view(ss.drop_first())
    }
}

/// A size measure used as the termination order for walks over statements.
pub open spec fn stmt_size(s: StmtV) -> nat
    decreases s,
{
    match s {
        StmtV::Loop { body, .. } => 2 + block_size(body),
        _ => 1,
    }
}

pub open spec fn block_size(b: Seq<StmtV>) -> nat
    decreases b,
{
    if b.len() == 0 {
        0
    } else {
        stmt_size(b[0]) + block_size(b.drop_first())
    }
}

pub proof fn lemma_block_size_element(b: Seq<StmtV>, i: int)
    requires
        0 <= i < b.len(),
    ensures
        stmt_size(b[i]) <= block_size(b),
    decreases b,
{
    if i > 0 {
        lemma_block_size_element(b.drop_first(), i - 1);
    }
}

pub proof fn lemma_block_view_len(ss: Seq<Statement>)
    ensures
        block_view(ss).len() == ss.len(),
        forall|i: int| 0 <= i < ss.len() ==> #[trigger] block_view(ss)[i] == stmt_view(ss[i]),
    decreases ss,
{
    if ss.len() > 0 {
        lemma_block_view_len(ss.drop_first());
    }
}

} // verus!
