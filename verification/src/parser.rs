use vstd::prelude::*;

use crate::ast::{
    block_size, block_view, lemma_block_view_len, stmt_size, stmt_view, Cmp, Statement, StmtV,
};
use crate::scalar::{clamp_s, clamp_scalar, SCALAR_MAX};

verus! {

/// Where a parse failed and what was expected there.
pub struct SyntaxError {
    pub pos: usize,
    pub kind: ErrorKind,
}

pub enum ErrorKind {
    UnexpectedChar,
    ExpectedStatement,
    ExpectedName,
    ExpectedComparator,
    ExpectedArrow,
    ExpectedParen,
    ExpectedBrace,
    ExpectedComma,
    ExpectedNumber,
    ExpectedDot,
    ExpectedCondition,
    ExpectedCount,
    UnterminatedBlock,
}

/// A parse either fails on the source text or exhausts the nesting budget.
pub enum WeaveError {
    Syntax(SyntaxError),
    ResourceExhaustion,
}

/// Loop nesting deeper than this is refused rather than risking the stack.
pub const MAX_DEPTH: usize = 64;

/// Integer parts of literals saturate here; scaled to fixed point this
/// already exceeds the scalar bound, so saturated literals clamp identically.
pub const LIT_CAP: u64 = 2_000_000_000_000;

pub enum Tok {
    Ident(Vec<u8>),
    Num { value: i64, count: u64, is_int: bool },
    Lt,
    Gt,
    Arrow,
    LParen,
    RParen,
    Comma,
    LBrace,
    RBrace,
    Dot,
}

pub struct Token {
    pub tok: Tok,
    pub pos: usize,
}

/// The mathematical form of a token.
pub ghost enum TokV {
    Ident(Seq<u8>),
    Num { value: int, count: nat, is_int: bool },
    Lt,
    Gt,
    Arrow,
    LParen,
    RParen,
    Comma,
    LBrace,
    RBrace,
    Dot,
}

pub open spec fn tok_view(t: Tok) -> TokV {
    match t {
        Tok::Ident(n) => TokV::Ident(n@),
        Tok::Num { value, count, is_int } => TokV::Num {
            value: value as int,
            count: count as nat,
            is_int,
        },
        Tok::Lt => TokV::Lt,
        Tok::Gt => TokV::Gt,
        Tok::Arrow => TokV::Arrow,
        Tok::LParen => TokV::LParen,
        Tok::RParen => TokV::RParen,
        Tok::Comma => TokV::Comma,
        Tok::LBrace => TokV::LBrace,
        Tok::RBrace => TokV::RBrace,
        Tok::Dot => TokV::Dot,
    }
}

pub open spec fn toks_view(ts: Seq<Token>) -> Seq<TokV> {
    ts.map(|i: int, t: Token| tok_view(t.tok))
}

pub open spec fn field_chars() -> Seq<u8> {
    seq![102u8, 105u8, 101u8, 108u8, 100u8]
}

pub open spec fn tension_chars() -> Seq<u8> {
    seq![116u8, 101u8, 110u8, 115u8, 105u8, 111u8, 110u8]
}

pub open spec fn drift_chars() -> Seq<u8> {
    seq![100u8, 114u8, 105u8, 102u8, 116u8]
}

pub open spec fn resolve_chars() -> Seq<u8> {
    seq![114u8, 101u8, 115u8, 111u8, 108u8, 118u8, 101u8]
}

pub open spec fn metaweave_chars() -> Seq<u8> {
    seq![109u8, 101u8, 116u8, 97u8, 119u8, 101u8, 97u8, 118u8, 101u8]
}

pub open spec fn extend_chars() -> Seq<u8> {
    seq![101u8, 120u8, 116u8, 101u8, 110u8, 100u8]
}

pub open spec fn loop_chars() -> Seq<u8> {
    seq![108u8, 111u8, 111u8, 112u8]
}

/// Whether a token is a numeric literal with this scalar value.
pub open spec fn num_with_value(t: TokV, v: int) -> bool {
    match t {
        TokV::Num { value, .. } => value == v,
        _ => false,
    }
}

/// Whether a token is a plain nonnegative integer literal with this count.
pub open spec fn int_with_count(t: TokV, c: nat) -> bool {
    match t {
        TokV::Num { count, is_int, .. } => is_int && count == c,
        _ => false,
    }
}

/// Whether a token is an identifier whose permissive boolean reading is
/// this condition.
pub open spec fn cond_with_value(t: TokV, c: bool) -> bool {
    match t {
        TokV::Ident(n) => c == contains_true(n),
        _ => false,
    }
}

/// Where a statement that starts at token `i` ends: every statement form
/// spans a fixed number of tokens except a loop, whose body decides it.
pub open spec fn stmt_end(i: int, s: StmtV) -> int
    decreases stmt_size(s), 0nat, 0nat,
{
    match s {
        StmtV::Field { .. } => i + 2,
        StmtV::Tension { .. } => i + 11,
        StmtV::Drift { .. } => i + 2,
        StmtV::Resolve { .. } => i + 4,
        StmtV::Metaweave { .. } => i + 3,
        StmtV::Extend { .. } => i + 5,
        StmtV::Loop { body, .. } => block_end(i + 3, body) + 1,
    }
}

pub open spec fn block_end(i: int, b: Seq<StmtV>) -> int
    decreases block_size(b), 1nat, b.len(),
{
    if b.len() == 0 {
        i
    } else {
        block_end(stmt_end(i, b[0]), b.drop_first())
    }
}

/// The grammar, statement by statement: the tokens from `i` to the
/// statement's end spell exactly the statement `s`.
pub open spec fn stmt_from_tokens(tv: Seq<TokV>, i: int, s: StmtV) -> bool
    decreases stmt_size(s), 0nat, 0nat,
{
    &&& 0 <= i
    &&& stmt_end(i, s) <= tv.len()
    &&& match s {
        StmtV::Field { name } => tv[i] == TokV::Ident(field_chars()) && tv[i + 1]
            == TokV::Ident(name),
        StmtV::Tension { sensor, cmp, param, action, v0, v1 } => tv[i] == TokV::Ident(
            tension_chars(),
        ) && tv[i + 1] == TokV::Ident(sensor) && tv[i + 2] == (if cmp == Cmp::Lt {
            TokV::Lt
        } else {
            TokV::Gt
        }) && tv[i + 3] == TokV::Ident(param) && tv[i + 4] == TokV::Arrow && tv[i + 5]
            == TokV::Ident(action) && tv[i + 6] == TokV::LParen && num_with_value(tv[i + 7], v0)
            && tv[i + 8] == TokV::Comma && num_with_value(tv[i + 9], v1) && tv[i + 10]
            == TokV::RParen,
        StmtV::Drift { param } => tv[i] == TokV::Ident(drift_chars()) && tv[i + 1]
            == TokV::Ident(param),
        StmtV::Resolve { sensor, param } => tv[i] == TokV::Ident(resolve_chars()) && tv[i + 1]
            == TokV::Ident(sensor) && tv[i + 2] == TokV::Dot && tv[i + 3] == TokV::Ident(param),
        StmtV::Metaweave { primitive, action } => tv[i] == TokV::Ident(metaweave_chars()) && tv[i
            + 1] == TokV::Ident(primitive) && tv[i + 2] == TokV::Ident(action),
        StmtV::Extend { field, param, value, condition } => tv[i] == TokV::Ident(extend_chars())
            && tv[i + 1] == TokV::Ident(field) && tv[i + 2] == TokV::Ident(param)
            && num_with_value(tv[i + 3], value) && cond_with_value(tv[i + 4], condition),
        StmtV::Loop { count, body } => tv[i] == TokV::Ident(loop_chars()) && int_with_count(
            tv[i + 1],
            count,
        ) && tv[i + 2] == TokV::LBrace && tv[block_end(i + 3, body)] == TokV::RBrace
            && block_from_tokens(tv, i + 3, body),
    }
}

/// The tokens from `i` onward begin with exactly this sequence of
/// statements, one after the other.
pub open spec fn block_from_tokens(tv: Seq<TokV>, i: int, b: Seq<StmtV>) -> bool
    decreases block_size(b), 1nat, b.len(),
{
    if b.len() == 0 {
        0 <= i <= tv.len()
    } else {
        stmt_from_tokens(tv, i, b[0]) && block_from_tokens(tv, stmt_end(i, b[0]), b.drop_first())
    }
}

proof fn lemma_stmt_end_ge(i: int, s: StmtV)
    ensures
        stmt_end(i, s) >= i + 2,
    decreases stmt_size(s), 0nat, 0nat,
{
    match s {
        StmtV::Loop { body, .. } => {
            lemma_block_end_ge(i + 3, body);
        },
        _ => {},
    }
}

proof fn lemma_block_end_ge(i: int, b: Seq<StmtV>)
    ensures
        block_end(i, b) >= i,
    decreases block_size(b), 1nat, b.len(),
{
    if b.len() > 0 {
        lemma_stmt_end_ge(i, b[0]);
        lemma_block_end_ge(stmt_end(i, b[0]), b.drop_first());
    }
}

/// How deeply loops nest in a statement.
pub open spec fn stmt_depth(s: StmtV) -> int
    decreases stmt_size(s), 0nat, 0nat,
{
    match s {
        StmtV::Loop { body, .. } => 1 + block_depth(body),
        _ => 0,
    }
}

pub open spec fn block_depth(b: Seq<StmtV>) -> int
    decreases block_size(b), 1nat, b.len(),
{
    if b.len() == 0 {
        0
    } else {
        let d = stmt_depth(b[0]);
        let r = block_depth(b.drop_first());
        if d >= r {
            d
        } else {
            r
        }
    }
}

proof fn lemma_stmt_depth_nonneg(s: StmtV)
    ensures
        stmt_depth(s) >= 0,
    decreases stmt_size(s), 0nat, 0nat,
{
    match s {
        StmtV::Loop { body, .. } => {
            lemma_block_depth_nonneg(body);
        },
        _ => {},
    }
}

proof fn lemma_block_depth_nonneg(b: Seq<StmtV>)
    ensures
        block_depth(b) >= 0,
    decreases block_size(b), 1nat, b.len(),
{
    if b.len() > 0 {
        lemma_stmt_depth_nonneg(b[0]);
        lemma_block_depth_nonneg(b.drop_first());
    }
}

/// How a statement block is delimited: inside a loop it runs up to a
/// closing brace; at the top level it runs to the end of the tokens.
pub open spec fn block_terminates(tv: Seq<TokV>, i: int, b: Seq<StmtV>, brace: bool) -> bool {
    if brace {
        block_end(i, b) < tv.len() && tv[block_end(i, b)] == TokV::RBrace
    } else {
        block_end(i, b) == tv.len()
    }
}

proof fn lemma_keywords_distinct()
    ensures
        field_chars() != drift_chars(),
        tension_chars() != resolve_chars(),
{
    assert(field_chars()[0] == 102 && drift_chars()[0] == 100);
    assert(tension_chars()[0] == 116 && resolve_chars()[0] == 114);
}

proof fn lemma_stmt_starts_ident(tv: Seq<TokV>, i: int, s: StmtV)
    requires
        stmt_from_tokens(tv, i, s),
    ensures
        tv[i] is Ident,
        i + 2 <= tv.len(),
{
    lemma_stmt_end_ge(i, s);
    match s {
        StmtV::Field { .. } => {},
        StmtV::Tension { .. } => {},
        StmtV::Drift { .. } => {},
        StmtV::Resolve { .. } => {},
        StmtV::Metaweave { .. } => {},
        StmtV::Extend { .. } => {},
        StmtV::Loop { .. } => {},
    }
}

/// The grammar is unambiguous: at most one statement is spelled at any
/// token position. Together with a parse's contract this pins the program
/// an accepted text executes.
pub proof fn lemma_stmt_unique(tv: Seq<TokV>, i: int, s1: StmtV, s2: StmtV)
    requires
        stmt_from_tokens(tv, i, s1),
        stmt_from_tokens(tv, i, s2),
    ensures
        s1 == s2,
    decreases stmt_size(s1), 0nat, 0nat,
{
    lemma_keywords_distinct();
    match (s1, s2) {
        (StmtV::Loop { count: c1, body: b1 }, StmtV::Loop { count: c2, body: b2 }) => {
            lemma_block_unique(tv, i + 3, b1, b2, true);
        },
        _ => {},
    }
}

/// The grammar is unambiguous: at most one statement sequence is spelled
/// between a token position and its delimiter, so the program of an
/// accepted text is unique.
pub proof fn lemma_block_unique(tv: Seq<TokV>, j: int, b1: Seq<StmtV>, b2: Seq<StmtV>, brace: bool)
    requires
        block_from_tokens(tv, j, b1),
        block_from_tokens(tv, j, b2),
        block_terminates(tv, j, b1, brace),
        block_terminates(tv, j, b2, brace),
    ensures
        b1 == b2,
    decreases block_size(b1), 1nat, b1.len(),
{
    if b1.len() == 0 {
        if b2.len() > 0 {
            lemma_stmt_starts_ident(tv, j, b2[0]);
            lemma_stmt_end_ge(j, b2[0]);
            lemma_block_end_ge(stmt_end(j, b2[0]), b2.drop_first());
        }
        assert(b1 =~= b2);
    } else if b2.len() == 0 {
        lemma_stmt_starts_ident(tv, j, b1[0]);
        lemma_stmt_end_ge(j, b1[0]);
        lemma_block_end_ge(stmt_end(j, b1[0]), b1.drop_first());
        assert(b1 =~= b2);
    } else {
        crate::ast::lemma_block_size_element(b1, 0);
        lemma_stmt_unique(tv, j, b1[0], b2[0]);
        lemma_block_unique(tv, stmt_end(j, b1[0]), b1.drop_first(), b2.drop_first(), brace);
        assert(b1 =~= b2) by {
            assert(b1[0] == b2[0]);
            assert(b1.drop_first() == b2.drop_first());
            assert forall|k: int| 0 <= k < b1.len() implies b1[k] == b2[k] by {
                if k > 0 {
                    assert(b1[k] == b1.drop_first()[k - 1]);
                    assert(b2[k] == b2.drop_first()[k - 1]);
                }
            }
        }
    }
}

/// A spelled, delimited block that begins where an already-parsed prefix
/// begins continues that prefix: past the prefix's end there is a spelled,
/// delimited remainder, no deeper than the whole.
proof fn lemma_block_split(
    tv: Seq<TokV>,
    start: int,
    parsed: Seq<StmtV>,
    b: Seq<StmtV>,
    brace: bool,
)
    requires
        block_from_tokens(tv, start, parsed),
        block_from_tokens(tv, start, b),
        block_terminates(tv, start, b, brace),
    ensures
        exists|b2: Seq<StmtV>|
            #[trigger] block_from_tokens(tv, block_end(start, parsed), b2) && block_terminates(
                tv,
                block_end(start, parsed),
                b2,
                brace,
            ) && block_depth(b2) <= block_depth(b),
    decreases parsed.len(),
{
    if parsed.len() == 0 {
        lemma_block_depth_nonneg(b);
        assert(block_from_tokens(tv, block_end(start, parsed), b) && block_terminates(
            tv,
            block_end(start, parsed),
            b,
            brace,
        ) && block_depth(b) <= block_depth(b));
    } else {
        if b.len() == 0 {
            lemma_stmt_starts_ident(tv, start, parsed[0]);
        }
        lemma_stmt_unique(tv, start, parsed[0], b[0]);
        lemma_stmt_depth_nonneg(b[0]);
        lemma_block_depth_nonneg(b.drop_first());
        lemma_block_split(
            tv,
            stmt_end(start, parsed[0]),
            parsed.drop_first(),
            b.drop_first(),
            brace,
        );
        let m = block_end(stmt_end(start, parsed[0]), parsed.drop_first());
        assert(m == block_end(start, parsed));
        let b2 = choose|b2: Seq<StmtV>|
            #[trigger] block_from_tokens(tv, m, b2) && block_terminates(tv, m, b2, brace)
                && block_depth(b2) <= block_depth(b.drop_first());
        assert(block_depth(b2) <= block_depth(b));
    }
}

proof fn lemma_block_from_snoc(tv: Seq<TokV>, start: int, b: Seq<StmtV>, s: StmtV)
    requires
        block_from_tokens(tv, start, b),
        stmt_from_tokens(tv, block_end(start, b), s),
    ensures
        block_from_tokens(tv, start, b.push(s)),
        block_end(start, b.push(s)) == stmt_end(block_end(start, b), s),
    decreases b.len(),
{
    reveal_with_fuel(block_from_tokens, 2);
    reveal_with_fuel(block_end, 2);
    if b.len() == 0 {
        assert(b.push(s)[0] == s);
        assert(b.push(s).drop_first() =~= Seq::<StmtV>::empty());
        lemma_stmt_end_ge(start, s);
    } else {
        assert(b.push(s)[0] == b[0]);
        assert(b.push(s).drop_first() =~= b.drop_first().push(s));
        lemma_block_from_snoc(tv, stmt_end(start, b[0]), b.drop_first(), s);
    }
}

pub open spec fn is_digit_b(b: u8) -> bool {
    48 <= b <= 57
}

pub open spec fn is_ident_b(b: u8) -> bool {
    ||| 97 <= b <= 122
    ||| 65 <= b <= 90
    ||| 48 <= b <= 57
    ||| b == 95
}

pub open spec fn is_space_b(b: u8) -> bool {
    b == 32 || b == 9 || b == 13 || b == 10
}

/// Where the run of digits that starts at `p` ends.
pub open spec fn digit_end(input: Seq<u8>, p: int) -> int
    decreases input.len() - p,
    when 0 <= p <= input.len()
{
    if p < input.len() && is_digit_b(input[p]) {
        digit_end(input, p + 1)
    } else {
        p
    }
}

/// Where the run of identifier characters that starts at `p` ends.
pub open spec fn ident_end(input: Seq<u8>, p: int) -> int
    decreases input.len() - p,
    when 0 <= p <= input.len()
{
    if p < input.len() && is_ident_b(input[p]) {
        ident_end(input, p + 1)
    } else {
        p
    }
}

proof fn lemma_digit_end_lb(input: Seq<u8>, p: int)
    requires
        0 <= p <= input.len(),
    ensures
        p <= digit_end(input, p) <= input.len(),
    decreases input.len() - p,
{
    if p < input.len() && is_digit_b(input[p]) {
        lemma_digit_end_lb(input, p + 1);
    }
}

proof fn lemma_ident_end_lb(input: Seq<u8>, p: int)
    requires
        0 <= p <= input.len(),
    ensures
        p <= ident_end(input, p) <= input.len(),
    decreases input.len() - p,
{
    if p < input.len() && is_ident_b(input[p]) {
        lemma_ident_end_lb(input, p + 1);
    }
}

proof fn lemma_digit_end_pins(input: Seq<u8>, p: int, e: int)
    requires
        0 <= p <= e <= input.len(),
        forall|k: int| p <= k < e ==> is_digit_b(#[trigger] input[k]),
        e < input.len() ==> !is_digit_b(input[e]),
    ensures
        digit_end(input, p) == e,
    decreases e - p,
{
    if p < e {
        lemma_digit_end_pins(input, p + 1, e);
    }
}

proof fn lemma_ident_end_pins(input: Seq<u8>, p: int, e: int)
    requires
        0 <= p <= e <= input.len(),
        forall|k: int| p <= k < e ==> is_ident_b(#[trigger] input[k]),
        e < input.len() ==> !is_ident_b(input[e]),
    ensures
        ident_end(input, p) == e,
    decreases e - p,
{
    if p < e {
        lemma_ident_end_pins(input, p + 1, e);
    }
}

/// The value of a string of decimal digits.
pub open spec fn digits_val(s: Seq<u8>) -> int
    decreases s,
{
    if s.len() == 0 {
        0
    } else {
        digits_val(s.drop_last()) * 10 + (s.last() - 48)
    }
}

pub open spec fn digits_sat(s: Seq<u8>) -> int {
    if digits_val(s) > LIT_CAP as int {
        LIT_CAP as int
    } else {
        digits_val(s)
    }
}

/// The value of a fraction part in thousandths: three decimal digits
/// survive the fixed-point encoding, further digits are dropped.
pub open spec fn frac_milli(s: Seq<u8>) -> int {
    if s.len() >= 3 {
        digits_val(s.take(3))
    } else if s.len() == 2 {
        digits_val(s) * 10
    } else if s.len() == 1 {
        digits_val(s) * 100
    } else {
        0
    }
}

/// The scalar a numeric literal denotes, saturated to the scalar range.
pub open spec fn lit_value(neg: bool, ip: Seq<u8>, fp: Seq<u8>) -> int {
    clamp_s((if neg { -1int } else { 1int }) * (digits_val(ip) * 1000 + frac_milli(fp)))
}

/// Whether a token contains the letters "true" in a row; this deliberately
/// permissive rule is what decides an extend condition.
pub open spec fn contains_true(s: Seq<u8>) -> bool {
    exists|i: int| 0 <= i && i + 4 <= s.len() && #[trigger] s.subrange(i, i + 4) =~= true_chars()
}

pub open spec fn true_chars() -> Seq<u8> {
    seq![116u8, 114u8, 117u8, 101u8]
}

proof fn lemma_digits_val_nonneg(s: Seq<u8>)
    requires
        forall|i: int| 0 <= i < s.len() ==> is_digit_b(#[trigger] s[i]),
    ensures
        digits_val(s) >= 0,
    decreases s,
{
    if s.len() > 0 {
        lemma_digits_val_nonneg(s.drop_last());
    }
}

proof fn lemma_digits_val_snoc(s: Seq<u8>, b: u8)
    ensures
        digits_val(s.push(b)) == digits_val(s) * 10 + (b - 48),
{
    assert(s.push(b).drop_last() =~= s);
    assert(s.push(b).last() == b);
}

fn is_digit(b: u8) -> (r: bool)
    ensures
        r == is_digit_b(b),
{
    48 <= b && b <= 57
}

fn is_ident_char(b: u8) -> (r: bool)
    ensures
        r == is_ident_b(b),
{
    (97 <= b && b <= 122) || (65 <= b && b <= 90) || (48 <= b && b <= 57) || b == 95
}

/// Reads a run of digits, accumulating its value with saturation.
fn scan_digits(input: &[u8], start: usize) -> (r: (u64, usize))
    requires
        start <= input@.len(),
    ensures
        start <= r.1 <= input@.len(),
        forall|k: int| start <= k < r.1 ==> is_digit_b(#[trigger] input@[k]),
        r.1 < input@.len() ==> !is_digit_b(input@[r.1 as int]),
        r.0 as int == digits_sat(input@.subrange(start as int, r.1 as int)),
        r.0 <= LIT_CAP,
{
    let mut j = start;
    let mut acc: u64 = 0;
    proof {
        assert(input@.subrange(start as int, start as int) =~= Seq::<u8>::empty());
    }
    while j < input.len() && is_digit(input[j])
        invariant
            start <= j <= input@.len(),
            forall|k: int| start <= k < j ==> is_digit_b(#[trigger] input@[k]),
            acc as int == digits_sat(input@.subrange(start as int, j as int)),
            acc <= LIT_CAP,
        decreases input@.len() - j,
    {
        let d = input[j];
        proof {
            let pref = input@.subrange(start as int, j as int);
            assert(input@.subrange(start as int, j as int + 1) =~= pref.push(d));
            lemma_digits_val_snoc(pref, d);
            lemma_digits_val_nonneg(pref);
        }
        let t: u64 = acc * 10 + ((d - 48) as u64);
        acc = if t > LIT_CAP {
            LIT_CAP
        } else {
            t
        };
        j = j + 1;
    }
    (acc, j)
}

/// Reads the fraction digits after the dot: the first three carry weight,
/// the rest only move the cursor.
fn scan_frac(input: &[u8], start: usize) -> (r: (u64, usize))
    requires
        start <= input@.len(),
    ensures
        start <= r.1 <= input@.len(),
        forall|k: int| start <= k < r.1 ==> is_digit_b(#[trigger] input@[k]),
        r.1 < input@.len() ==> !is_digit_b(input@[r.1 as int]),
        r.0 as int == frac_milli(input@.subrange(start as int, r.1 as int)),
        r.0 < 1000,
{
    let (_, end) = scan_digits(input, start);
    let limit: usize = if end - start > 3 {
        start + 3
    } else {
        end
    };
    let mut j = start;
    let mut f: u64 = 0;
    proof {
        assert(input@.subrange(start as int, start as int) =~= Seq::<u8>::empty());
    }
    while j < limit
        invariant
            start <= j <= limit <= end <= input@.len(),
            limit - start <= 3,
            forall|k: int| start <= k < end ==> is_digit_b(#[trigger] input@[k]),
            f as int == digits_val(input@.subrange(start as int, j as int)),
            j - start == 0 ==> f == 0,
            j - start == 1 ==> f <= 9,
            j - start == 2 ==> f <= 99,
            j - start == 3 ==> f <= 999,
        decreases limit - j,
    {
        let d = input[j];
        proof {
            let pref = input@.subrange(start as int, j as int);
            assert(input@.subrange(start as int, j as int + 1) =~= pref.push(d));
            lemma_digits_val_snoc(pref, d);
            lemma_digits_val_nonneg(pref);
        }
        f = f * 10 + ((d - 48) as u64);
        j = j + 1;
    }
    let width = limit - start;
    let scaled: u64 = if width == 0 {
        0
    } else if width == 1 {
        f * 100
    } else if width == 2 {
        f * 10
    } else {
        f
    };
    proof {
        let full = input@.subrange(start as int, end as int);
        let taken = input@.subrange(start as int, limit as int);
        if full.len() >= 3 {
            assert(full.take(3) =~= taken);
        } else {
            assert(full =~= taken);
        }
        lemma_digits_val_nonneg(taken);
    }
    (scaled, end)
}

/// Where the numeric literal that starts at `p` ends: an optional minus,
/// the run of integer digits, and, after a dot, the run of fraction digits.
pub open spec fn number_end(input: Seq<u8>, p: int) -> int {
    let ds: int = if input[p] == 45 {
        p + 1
    } else {
        p
    };
    let mid = digit_end(input, ds);
    if mid < input.len() && input[mid] == 46 {
        digit_end(input, mid + 1)
    } else {
        mid
    }
}

/// The token that the numeric literal starting at `p` denotes, with its
/// segments taken exactly as the lexer takes them: the maximal digit runs.
pub open spec fn number_token(input: Seq<u8>, p: int) -> TokV {
    let neg = input[p] == 45;
    let ds: int = if neg {
        p + 1
    } else {
        p
    };
    let mid = digit_end(input, ds);
    let e = number_end(input, p);
    let fs: int = if mid < e {
        mid + 1
    } else {
        mid
    };
    TokV::Num {
        value: lit_value(neg, input.subrange(ds, mid), input.subrange(fs, e)),
        count: digits_sat(input.subrange(ds, mid)) as nat,
        is_int: !neg && mid == e,
    }
}

/// Reads a numeric literal: optional minus, digits, optional dot and
/// fraction. Yields the fixed-point scalar it denotes, its value as a loop
/// count, and whether it was a plain nonnegative integer.
fn scan_number(input: &[u8], start: usize) -> (r: (i64, u64, bool, usize))
    requires
        start < input@.len(),
        input@[start as int] == 45 || is_digit_b(input@[start as int]),
    ensures
        start < r.3 <= input@.len(),
        r.3 as int == number_end(input@, start as int),
        (TokV::Num { value: r.0 as int, count: r.1 as nat, is_int: r.2 }) == number_token(
            input@,
            start as int,
        ),
        -(SCALAR_MAX as int) <= r.0 as int <= SCALAR_MAX as int,
        r.1 <= LIT_CAP,
{
    let neg = input[start] == 45;
    let dstart = if neg {
        start + 1
    } else {
        start
    };
    let (ip, mid) = scan_digits(input, dstart);
    let mut fp: u64 = 0;
    let mut end = mid;
    if mid < input.len() && input[mid] == 46 {
        let (f, fend) = scan_frac(input, mid + 1);
        fp = f;
        end = fend;
    }
    let ghost ipart = input@.subrange(dstart as int, mid as int);
    let ghost fstart: int = if (mid as int) < end as int {
        mid as int + 1
    } else {
        mid as int
    };
    let ghost fpart = input@.subrange(fstart, end as int);
    proof {
        if (mid as int) == end as int {
            assert(fpart =~= Seq::<u8>::empty());
        }
        lemma_digits_val_nonneg(ipart);
    }
    let is_int_v = !neg && mid == end;
    let mag: u64 = ip * 1000 + fp;
    let val: i64 = if neg {
        clamp_scalar(-(mag as i64))
    } else {
        clamp_scalar(mag as i64)
    };
    proof {
        let exact = digits_val(ipart) * 1000 + frac_milli(fpart);
        assert(fp as int == frac_milli(fpart));
        if digits_val(ipart) > LIT_CAP as int {
            assert(exact >= (LIT_CAP as int + 1) * 1000) by (nonlinear_arith)
                requires
                    exact == digits_val(ipart) * 1000 + frac_milli(fpart),
                    digits_val(ipart) >= LIT_CAP as int + 1,
                    frac_milli(fpart) >= 0,
            ;
            if neg {
                assert((-1int) * exact == -exact) by (nonlinear_arith);
            } else {
                assert(1int * exact == exact) by (nonlinear_arith);
            }
            assert(val as int == lit_value(neg, ipart, fpart));
        } else {
            assert(mag as int == exact);
            if neg {
                assert((-1int) * exact == -exact) by (nonlinear_arith);
            } else {
                assert(1int * exact == exact) by (nonlinear_arith);
            }
            assert(val as int == lit_value(neg, ipart, fpart));
        }
        assert(input@.subrange(dstart as int, mid as int) == ipart);
        assert(input@.subrange(fstart, end as int) == fpart);
        let sneg = input@[start as int] == 45;
        assert(sneg == neg);
        assert(digit_end(input@, dstart as int) == mid as int) by {
            lemma_digit_end_pins(input@, dstart as int, mid as int);
        }
        if (mid as int) < end as int {
            assert(digit_end(input@, mid as int + 1) == end as int) by {
                lemma_digit_end_pins(input@, mid as int + 1, end as int);
            }
        }
        assert(number_end(input@, start as int) == end as int);
        assert((TokV::Num { value: val as int, count: ip as nat, is_int: is_int_v })
            == number_token(input@, start as int));
    }
    (val, ip, is_int_v, end)
}

/// Whether the token holds the letters "true" anywhere inside it.
pub fn token_contains_true(s: &[u8]) -> (r: bool)
    ensures
        r == contains_true(s@),
{
    if s.len() < 4 {
        proof {
            assert(!contains_true(s@));
        }
        return false;
    }
    let mut i: usize = 0;
    while i <= s.len() - 4
        invariant
            s@.len() >= 4,
            i <= s@.len() - 3,
            forall|k: int| 0 <= k < i ==> !(#[trigger] s@.subrange(k, k + 4) =~= true_chars()),
        decreases s@.len() - i,
    {
        if s[i] == 116 && s[i + 1] == 114 && s[i + 2] == 117 && s[i + 3] == 101 {
            proof {
                assert(s@.subrange(i as int, i as int + 4) =~= true_chars());
            }
            return true;
        }
        proof {
            assert(!(s@.subrange(i as int, i as int + 4) =~= true_chars()));
        }
        i = i + 1;
    }
    proof {
        assert forall|k: int| 0 <= k && k + 4 <= s@.len() implies !(#[trigger] s@.subrange(k, k + 4)
            =~= true_chars()) by {
            assert(k < i);
        }
    }
    false
}

/// Glues one token onto a lexing tail, propagating failure.
pub open spec fn lex_cons(t: TokV, rest: Option<Seq<TokV>>) -> Option<Seq<TokV>> {
    match rest {
        Some(r) => Some(seq![t] + r),
        None => None,
    }
}

/// The lexical grammar: the tokens the text yields from position `p`
/// onward, or nothing if an unlexable character is reached. Each branch
/// mirrors one token form; the whole is what `tokenize` computes.
pub open spec fn lex_spec(input: Seq<u8>, p: int) -> Option<Seq<TokV>>
    decreases input.len() - p,
    when 0 <= p <= input.len()
    via lex_spec_decreases
{
    if p >= input.len() {
        Some(Seq::empty())
    } else {
        let b = input[p];
        if is_space_b(b) {
            lex_spec(input, p + 1)
        } else if is_ident_b(b) && !is_digit_b(b) {
            let e = ident_end(input, p);
            lex_cons(TokV::Ident(input.subrange(p, e)), lex_spec(input, e))
        } else if is_digit_b(b) || (b == 45 && p + 1 < input.len() && is_digit_b(input[p + 1])) {
            lex_cons(number_token(input, p), lex_spec(input, number_end(input, p)))
        } else if b == 60 {
            lex_cons(TokV::Lt, lex_spec(input, p + 1))
        } else if b == 62 {
            lex_cons(TokV::Gt, lex_spec(input, p + 1))
        } else if b == 61 && p + 1 < input.len() && input[p + 1] == 62 {
            lex_cons(TokV::Arrow, lex_spec(input, p + 2))
        } else if b == 40 {
            lex_cons(TokV::LParen, lex_spec(input, p + 1))
        } else if b == 41 {
            lex_cons(TokV::RParen, lex_spec(input, p + 1))
        } else if b == 44 {
            lex_cons(TokV::Comma, lex_spec(input, p + 1))
        } else if b == 123 {
            lex_cons(TokV::LBrace, lex_spec(input, p + 1))
        } else if b == 125 {
            lex_cons(TokV::RBrace, lex_spec(input, p + 1))
        } else if b == 46 {
            lex_cons(TokV::Dot, lex_spec(input, p + 1))
        } else {
            None
        }
    }
}

#[via_fn]
proof fn lex_spec_decreases(input: Seq<u8>, p: int) {
    if 0 <= p && p < input.len() {
        let b = input[p];
        if is_space_b(b) {
        } else if is_ident_b(b) && !is_digit_b(b) {
            lemma_ident_end_lb(input, p + 1);
            assert(ident_end(input, p) == ident_end(input, p + 1));
        } else if is_digit_b(b) || (b == 45 && p + 1 < input.len() && is_digit_b(input[p + 1])) {
            lemma_number_end_in(input, p);
        }
    }
}

proof fn lemma_number_end_in(input: Seq<u8>, p: int)
    requires
        0 <= p < input.len(),
        is_digit_b(input[p]) || (input[p] == 45 && p + 1 < input.len() && is_digit_b(
            input[p + 1],
        )),
    ensures
        p < number_end(input, p) <= input.len(),
{
    if input[p] == 45 {
        lemma_digit_end_lb(input, p + 1);
        let mid = digit_end(input, p + 1);
        if mid < input.len() && input[mid] == 46 {
            lemma_digit_end_lb(input, mid + 1);
        }
    } else {
        assert(digit_end(input, p) == digit_end(input, p + 1));
        lemma_digit_end_lb(input, p + 1);
        let mid = digit_end(input, p);
        if mid < input.len() && input[mid] == 46 {
            lemma_digit_end_lb(input, mid + 1);
        }
    }
}

/// The lexing that remains from `p` completes what was read so far: if the
/// rest lexes, the whole text lexes to the accumulated tokens followed by
/// the rest, and if the rest fails, the whole text fails.
pub open spec fn lex_continues(input: Seq<u8>, acc: Seq<TokV>, p: int) -> bool {
    match lex_spec(input, p) {
        Some(rest) => lex_spec(input, 0) == Some(acc + rest),
        None => lex_spec(input, 0) is None,
    }
}

proof fn lemma_lex_step(input: Seq<u8>, acc: Seq<TokV>, p: int, t: TokV, q: int)
    requires
        lex_continues(input, acc, p),
        lex_spec(input, p) == lex_cons(t, lex_spec(input, q)),
    ensures
        lex_continues(input, acc.push(t), q),
{
    match lex_spec(input, q) {
        Some(rest) => {
            assert(acc + (seq![t] + rest) =~= acc.push(t) + rest);
        },
        None => {},
    }
}

proof fn lemma_toks_view_push(ts: Seq<Token>, t: Token)
    ensures
        toks_view(ts.push(t)) == toks_view(ts).push(tok_view(t.tok)),
{
    assert forall|i: int| 0 <= i < ts.push(t).len() implies toks_view(ts.push(t))[i] == toks_view(
        ts,
    ).push(tok_view(t.tok))[i] by {
        if i < ts.len() {
            assert(ts.push(t)[i] == ts[i]);
        } else {
            assert(ts.push(t)[i] == t);
        }
    }
    assert(toks_view(ts.push(t)) =~= toks_view(ts).push(tok_view(t.tok)));
}

/// Splits the source text into tokens, each tagged with its byte position:
/// exactly the tokens of the lexical grammar, or an error at the first
/// unlexable character, exactly where the lexical grammar fails.
pub fn tokenize(input: &[u8]) -> (r: Result<Vec<Token>, SyntaxError>)
    ensures
        r matches Ok(ts) ==> lex_spec(input@, 0) == Some(toks_view(ts@)),
        r is Err ==> lex_spec(input@, 0) is None,
        r is Err ==> r->Err_0.pos <= input@.len(),
{
    let mut toks: Vec<Token> = Vec::new();
    let mut p: usize = 0;
    proof {
        assert(toks_view(toks@) =~= Seq::<TokV>::empty());
        let ghost o = lex_spec(input@, 0);
        match o {
            Some(rest) => {
                assert(Seq::<TokV>::empty() + rest =~= rest);
            },
            None => {},
        }
    }
    while p < input.len()
        invariant
            p <= input@.len(),
            lex_continues(input@, toks_view(toks@), p as int),
        decreases input@.len() - p,
    {
        let ghost acc = toks_view(toks@);
        let b = input[p];
        if b == 32 || b == 9 || b == 13 || b == 10 {
            proof {
                assert(lex_spec(input@, p as int) == lex_spec(input@, p as int + 1));
            }
            p = p + 1;
        } else if is_ident_char(b) && !is_digit(b) {
            let q0 = p;
            let mut q = p;
            let mut name: Vec<u8> = Vec::new();
            proof {
                assert(name@ =~= input@.subrange(q0 as int, q as int));
            }
            while q < input.len() && is_ident_char(input[q])
                invariant
                    q0 <= q <= input@.len(),
                    name@ == input@.subrange(q0 as int, q as int),
                    forall|k: int| q0 <= k < q ==> is_ident_b(#[trigger] input@[k]),
                decreases input@.len() - q,
            {
                proof {
                    assert(input@.subrange(q0 as int, q as int + 1) =~= input@.subrange(
                        q0 as int,
                        q as int,
                    ).push(input@[q as int]));
                }
                name.push(input[q]);
                q = q + 1;
            }
            let t = Token { tok: Tok::Ident(name), pos: q0 };
            proof {
                lemma_ident_end_pins(input@, q0 as int, q as int);
                assert(lex_spec(input@, p as int) == lex_cons(
                    tok_view(t.tok),
                    lex_spec(input@, q as int),
                ));
                lemma_lex_step(input@, acc, p as int, tok_view(t.tok), q as int);
                lemma_toks_view_push(toks@, t);
            }
            toks.push(t);
            p = q;
        } else if is_digit(b) || (b == 45 && p + 1 < input.len() && is_digit(input[p + 1])) {
            let (value, count, is_int, end) = scan_number(input, p);
            let t = Token { tok: Tok::Num { value, count, is_int }, pos: p };
            proof {
                assert(tok_view(t.tok) == number_token(input@, p as int));
                assert(lex_spec(input@, p as int) == lex_cons(
                    tok_view(t.tok),
                    lex_spec(input@, end as int),
                ));
                lemma_lex_step(input@, acc, p as int, tok_view(t.tok), end as int);
                lemma_toks_view_push(toks@, t);
            }
            toks.push(t);
            p = end;
        } else if b == 60 || b == 62 || b == 40 || b == 41 || b == 44 || b == 123 || b == 125
            || b == 46 {
            let t = Token {
                tok: if b == 60 {
                    Tok::Lt
                } else if b == 62 {
                    Tok::Gt
                } else if b == 40 {
                    Tok::LParen
                } else if b == 41 {
                    Tok::RParen
                } else if b == 44 {
                    Tok::Comma
                } else if b == 123 {
                    Tok::LBrace
                } else if b == 125 {
                    Tok::RBrace
                } else {
                    Tok::Dot
                },
                pos: p,
            };
            proof {
                assert(lex_spec(input@, p as int) == lex_cons(
                    tok_view(t.tok),
                    lex_spec(input@, p as int + 1),
                ));
                lemma_lex_step(input@, acc, p as int, tok_view(t.tok), p as int + 1);
                lemma_toks_view_push(toks@, t);
            }
            toks.push(t);
            p = p + 1;
        } else if b == 61 && p + 1 < input.len() && input[p + 1] == 62 {
            let t = Token { tok: Tok::Arrow, pos: p };
            proof {
                assert(lex_spec(input@, p as int) == lex_cons(
                    tok_view(t.tok),
                    lex_spec(input@, p as int + 2),
                ));
                lemma_lex_step(input@, acc, p as int, tok_view(t.tok), p as int + 2);
                lemma_toks_view_push(toks@, t);
            }
            toks.push(t);
            p = p + 2;
        } else {
            proof {
                assert(lex_spec(input@, p as int) is None);
            }
            return Err(SyntaxError { pos: p, kind: ErrorKind::UnexpectedChar });
        }
    }
    proof {
        assert(lex_spec(input@, p as int) == Some(Seq::<TokV>::empty()));
        assert(toks_view(toks@) + Seq::<TokV>::empty() =~= toks_view(toks@));
    }
    Ok(toks)
}

/// Which statement keyword an identifier is, if any.
fn kw_code(v: &[u8]) -> (k: u8)
    ensures
        k == 1 <==> v@ == field_chars(),
        k == 2 <==> v@ == tension_chars(),
        k == 3 <==> v@ == drift_chars(),
        k == 4 <==> v@ == resolve_chars(),
        k == 5 <==> v@ == metaweave_chars(),
        k == 6 <==> v@ == extend_chars(),
        k == 7 <==> v@ == loop_chars(),
{
    if v.len() == 5 && v[0] == 'f' as u8 && v[1] == 'i' as u8 && v[2] == 'e' as u8 && v[3] == 'l'
        as u8 && v[4] == 'd' as u8 {
        proof {
            assert(v@ =~= field_chars());
        }
        1
    } else if v.len() == 7 && v[0] == 't' as u8 && v[1] == 'e' as u8 && v[2] == 'n' as u8 && v[3]
        == 's' as u8 && v[4] == 'i' as u8 && v[5] == 'o' as u8 && v[6] == 'n' as u8 {
        proof {
            assert(v@ =~= tension_chars());
        }
        2
    } else if v.len() == 5 && v[0] == 'd' as u8 && v[1] == 'r' as u8 && v[2] == 'i' as u8 && v[3]
        == 'f' as u8 && v[4] == 't' as u8 {
        proof {
            assert(v@ =~= drift_chars());
        }
        3
    } else if v.len() == 7 && v[0] == 'r' as u8 && v[1] == 'e' as u8 && v[2] == 's' as u8 && v[3]
        == 'o' as u8 && v[4] == 'l' as u8 && v[5] == 'v' as u8 && v[6] == 'e' as u8 {
        proof {
            assert(v@ =~= resolve_chars());
        }
        4
    } else if v.len() == 9 && v[0] == 'm' as u8 && v[1] == 'e' as u8 && v[2] == 't' as u8 && v[3]
        == 'a' as u8 && v[4] == 'w' as u8 && v[5] == 'e' as u8 && v[6] == 'a' as u8 && v[7] == 'v'
        as u8 && v[8] == 'e' as u8 {
        proof {
            assert(v@ =~= metaweave_chars());
        }
        5
    } else if v.len() == 6 && v[0] == 'e' as u8 && v[1] == 'x' as u8 && v[2] == 't' as u8 && v[3]
        == 'e' as u8 && v[4] == 'n' as u8 && v[5] == 'd' as u8 {
        proof {
            assert(v@ =~= extend_chars());
        }
        6
    } else if v.len() == 4 && v[0] == 'l' as u8 && v[1] == 'o' as u8 && v[2] == 'o' as u8 && v[3]
        == 'p' as u8 {
        proof {
            assert(v@ =~= loop_chars());
        }
        7
    } else {
        0
    }
}

/// The byte position of the token at `j`, or the end of the text.
fn tok_pos(toks: &Vec<Token>, j: usize, input_len: usize) -> usize {
    if j < toks.len() {
        toks[j].pos
    } else {
        input_len
    }
}

/// The identifier at token `j`, copied out, if there is one.
fn get_ident(toks: &Vec<Token>, j: usize) -> (r: Option<Vec<u8>>)
    ensures
        r is Some ==> j < toks@.len(),
        r matches Some(n) ==> tok_view(toks@[j as int].tok) == TokV::Ident(n@),
        r is None ==> j >= toks@.len() || !(tok_view(toks@[j as int].tok) is Ident),
{
    if j < toks.len() {
        match &toks[j].tok {
            Tok::Ident(n) => Some(crate::bytes::copy_bytes(n.as_slice())),
            _ => None,
        }
    } else {
        None
    }
}

/// The numeric literal at token `j`, if there is one.
fn get_num(toks: &Vec<Token>, j: usize) -> (r: Option<(i64, u64, bool)>)
    ensures
        r is Some ==> j < toks@.len(),
        r matches Some(t) ==> tok_view(toks@[j as int].tok) == (TokV::Num {
            value: t.0 as int,
            count: t.1 as nat,
            is_int: t.2,
        }),
        r is None ==> j >= toks@.len() || !(tok_view(toks@[j as int].tok) is Num),
{
    if j < toks.len() {
        match &toks[j].tok {
            Tok::Num { value, count, is_int } => Some((*value, *count, *is_int)),
            _ => None,
        }
    } else {
        None
    }
}

/// Whether token `j` is the given punctuation, coded as in the tokenizer
/// dispatch: comparators, arrow, parens, comma, braces, dot.
fn sym_at(toks: &Vec<Token>, j: usize) -> (k: u8)
    ensures
        k != 0 ==> j < toks@.len(),
        k == 1 <==> j < toks@.len() && tok_view(toks@[j as int].tok) == TokV::Lt,
        k == 2 <==> j < toks@.len() && tok_view(toks@[j as int].tok) == TokV::Gt,
        k == 3 <==> j < toks@.len() && tok_view(toks@[j as int].tok) == TokV::Arrow,
        k == 4 <==> j < toks@.len() && tok_view(toks@[j as int].tok) == TokV::LParen,
        k == 5 <==> j < toks@.len() && tok_view(toks@[j as int].tok) == TokV::RParen,
        k == 6 <==> j < toks@.len() && tok_view(toks@[j as int].tok) == TokV::Comma,
        k == 7 <==> j < toks@.len() && tok_view(toks@[j as int].tok) == TokV::LBrace,
        k == 8 <==> j < toks@.len() && tok_view(toks@[j as int].tok) == TokV::RBrace,
        k == 9 <==> j < toks@.len() && tok_view(toks@[j as int].tok) == TokV::Dot,
{
    if j < toks.len() {
        match &toks[j].tok {
            Tok::Lt => 1,
            Tok::Gt => 2,
            Tok::Arrow => 3,
            Tok::LParen => 4,
            Tok::RParen => 5,
            Tok::Comma => 6,
            Tok::LBrace => 7,
            Tok::RBrace => 8,
            Tok::Dot => 9,
            _ => 0,
        }
    } else {
        0
    }
}

proof fn lemma_tv_len(toks: Seq<Token>)
    ensures
        toks_view(toks).len() == toks.len(),
        forall|k: int| 0 <= k < toks.len() ==> #[trigger] toks_view(toks)[k] == tok_view(
            toks[k].tok,
        ),
{
}

/// Parses one statement starting at token `i`.
fn parse_stmt(toks: &Vec<Token>, i: usize, depth: usize, input_len: usize) -> (r: Result<
    (Statement, usize),
    WeaveError,
>)
    requires
        i < toks@.len(),
    ensures
        r is Ok ==> i < r->Ok_0.1 <= toks@.len(),
        r matches Ok(p) ==> p.1 as int == stmt_end(i as int, stmt_view(p.0))
            && stmt_from_tokens(toks_view(toks@), i as int, stmt_view(p.0)),
        r is Err ==> forall|sx: StmtV| #[trigger] stmt_from_tokens(toks_view(toks@), i as int, sx)
            ==> (MAX_DEPTH as int) < depth as int + stmt_depth(sx),
    decreases toks@.len() - i, 0nat,
{
    let n_toks = toks.len();
    proof {
        lemma_tv_len(toks@);
    }
    let kw = match &toks[i].tok {
        Tok::Ident(n) => kw_code(n.as_slice()),
        _ => 0,
    };
    let mut j = i + 1;
    if kw == 1 {
        // field <name>
        let name = match get_ident(toks, j) {
            Some(n) => n,
            None => {
                proof {
                    assert forall|sx: StmtV| #[trigger] stmt_from_tokens(
                        toks_view(toks@),
                        i as int,
                        sx,
                    ) implies (MAX_DEPTH as int) < depth as int + stmt_depth(sx) by {
                        lemma_keywords_distinct();
                        lemma_stmt_starts_ident(toks_view(toks@), i as int, sx);
                        lemma_stmt_depth_nonneg(sx);
                        match sx {
                            StmtV::Loop { body, .. } => {
                                lemma_block_depth_nonneg(body);
                                lemma_block_end_ge(i as int + 3, body);
                            },
                            _ => {},
                        }
                    }
                }
                return Err(err_at(toks, j, input_len, ErrorKind::ExpectedName));
            },
        };
        j = j + 1;
        let st = Statement::Field { name };
        proof {
            assert(stmt_from_tokens(toks_view(toks@), i as int, stmt_view(st)));
        }
        Ok((st, j))
    } else if kw == 2 {
        // tension <sensor> <cmp> <param> => <action>(<v0>, <v1>)
        let sensor = match get_ident(toks, j) {
            Some(n) => n,
            None => {
                proof {
                    assert forall|sx: StmtV| #[trigger] stmt_from_tokens(
                        toks_view(toks@),
                        i as int,
                        sx,
                    ) implies (MAX_DEPTH as int) < depth as int + stmt_depth(sx) by {
                        lemma_keywords_distinct();
                        lemma_stmt_starts_ident(toks_view(toks@), i as int, sx);
                        lemma_stmt_depth_nonneg(sx);
                        match sx {
                            StmtV::Loop { body, .. } => {
                                lemma_block_depth_nonneg(body);
                                lemma_block_end_ge(i as int + 3, body);
                            },
                            _ => {},
                        }
                    }
                }
                return Err(err_at(toks, j, input_len, ErrorKind::ExpectedName));
            },
        };
        j = j + 1;
        let cmp_sym = sym_at(toks, j);
        let cmp = if cmp_sym == 1 {
            Cmp::Lt
        } else if cmp_sym == 2 {
            Cmp::Gt
        } else {
            proof {
                    assert forall|sx: StmtV| #[trigger] stmt_from_tokens(
                        toks_view(toks@),
                        i as int,
                        sx,
                    ) implies (MAX_DEPTH as int) < depth as int + stmt_depth(sx) by {
                        lemma_keywords_distinct();
                        lemma_stmt_starts_ident(toks_view(toks@), i as int, sx);
                        lemma_stmt_depth_nonneg(sx);
                        match sx {
                            StmtV::Loop { body, .. } => {
                                lemma_block_depth_nonneg(body);
                                lemma_block_end_ge(i as int + 3, body);
                            },
                            _ => {},
                        }
                    }
                }
                return Err(err_at(toks, j, input_len, ErrorKind::ExpectedComparator));
        };
        j = j + 1;
        let param = match get_ident(toks, j) {
            Some(n) => n,
            None => {
                proof {
                    assert forall|sx: StmtV| #[trigger] stmt_from_tokens(
                        toks_view(toks@),
                        i as int,
                        sx,
                    ) implies (MAX_DEPTH as int) < depth as int + stmt_depth(sx) by {
                        lemma_keywords_distinct();
                        lemma_stmt_starts_ident(toks_view(toks@), i as int, sx);
                        lemma_stmt_depth_nonneg(sx);
                        match sx {
                            StmtV::Loop { body, .. } => {
                                lemma_block_depth_nonneg(body);
                                lemma_block_end_ge(i as int + 3, body);
                            },
                            _ => {},
                        }
                    }
                }
                return Err(err_at(toks, j, input_len, ErrorKind::ExpectedName));
            },
        };
        j = j + 1;
        if sym_at(toks, j) != 3 {
            proof {
                    assert forall|sx: StmtV| #[trigger] stmt_from_tokens(
                        toks_view(toks@),
                        i as int,
                        sx,
                    ) implies (MAX_DEPTH as int) < depth as int + stmt_depth(sx) by {
                        lemma_keywords_distinct();
                        lemma_stmt_starts_ident(toks_view(toks@), i as int, sx);
                        lemma_stmt_depth_nonneg(sx);
                        match sx {
                            StmtV::Loop { body, .. } => {
                                lemma_block_depth_nonneg(body);
                                lemma_block_end_ge(i as int + 3, body);
                            },
                            _ => {},
                        }
                    }
                }
                return Err(err_at(toks, j, input_len, ErrorKind::ExpectedArrow));
        }
        j = j + 1;
        let action = match get_ident(toks, j) {
            Some(n) => n,
            None => {
                proof {
                    assert forall|sx: StmtV| #[trigger] stmt_from_tokens(
                        toks_view(toks@),
                        i as int,
                        sx,
                    ) implies (MAX_DEPTH as int) < depth as int + stmt_depth(sx) by {
                        lemma_keywords_distinct();
                        lemma_stmt_starts_ident(toks_view(toks@), i as int, sx);
                        lemma_stmt_depth_nonneg(sx);
                        match sx {
                            StmtV::Loop { body, .. } => {
                                lemma_block_depth_nonneg(body);
                                lemma_block_end_ge(i as int + 3, body);
                            },
                            _ => {},
                        }
                    }
                }
                return Err(err_at(toks, j, input_len, ErrorKind::ExpectedName));
            },
        };
        j = j + 1;
        if sym_at(toks, j) != 4 {
            proof {
                    assert forall|sx: StmtV| #[trigger] stmt_from_tokens(
                        toks_view(toks@),
                        i as int,
                        sx,
                    ) implies (MAX_DEPTH as int) < depth as int + stmt_depth(sx) by {
                        lemma_keywords_distinct();
                        lemma_stmt_starts_ident(toks_view(toks@), i as int, sx);
                        lemma_stmt_depth_nonneg(sx);
                        match sx {
                            StmtV::Loop { body, .. } => {
                                lemma_block_depth_nonneg(body);
                                lemma_block_end_ge(i as int + 3, body);
                            },
                            _ => {},
                        }
                    }
                }
                return Err(err_at(toks, j, input_len, ErrorKind::ExpectedParen));
        }
        j = j + 1;
        let v0 = match get_num(toks, j) {
            Some((v, _, _)) => v,
            None => {
                proof {
                    assert forall|sx: StmtV| #[trigger] stmt_from_tokens(
                        toks_view(toks@),
                        i as int,
                        sx,
                    ) implies (MAX_DEPTH as int) < depth as int + stmt_depth(sx) by {
                        lemma_keywords_distinct();
                        lemma_stmt_starts_ident(toks_view(toks@), i as int, sx);
                        lemma_stmt_depth_nonneg(sx);
                        match sx {
                            StmtV::Loop { body, .. } => {
                                lemma_block_depth_nonneg(body);
                                lemma_block_end_ge(i as int + 3, body);
                            },
                            _ => {},
                        }
                    }
                }
                return Err(err_at(toks, j, input_len, ErrorKind::ExpectedNumber));
            },
        };
        j = j + 1;
        if sym_at(toks, j) != 6 {
            proof {
                    assert forall|sx: StmtV| #[trigger] stmt_from_tokens(
                        toks_view(toks@),
                        i as int,
                        sx,
                    ) implies (MAX_DEPTH as int) < depth as int + stmt_depth(sx) by {
                        lemma_keywords_distinct();
                        lemma_stmt_starts_ident(toks_view(toks@), i as int, sx);
                        lemma_stmt_depth_nonneg(sx);
                        match sx {
                            StmtV::Loop { body, .. } => {
                                lemma_block_depth_nonneg(body);
                                lemma_block_end_ge(i as int + 3, body);
                            },
                            _ => {},
                        }
                    }
                }
                return Err(err_at(toks, j, input_len, ErrorKind::ExpectedComma));
        }
        j = j + 1;
        let v1 = match get_num(toks, j) {
            Some((v, _, _)) => v,
            None => {
                proof {
                    assert forall|sx: StmtV| #[trigger] stmt_from_tokens(
                        toks_view(toks@),
                        i as int,
                        sx,
                    ) implies (MAX_DEPTH as int) < depth as int + stmt_depth(sx) by {
                        lemma_keywords_distinct();
                        lemma_stmt_starts_ident(toks_view(toks@), i as int, sx);
                        lemma_stmt_depth_nonneg(sx);
                        match sx {
                            StmtV::Loop { body, .. } => {
                                lemma_block_depth_nonneg(body);
                                lemma_block_end_ge(i as int + 3, body);
                            },
                            _ => {},
                        }
                    }
                }
                return Err(err_at(toks, j, input_len, ErrorKind::ExpectedNumber));
            },
        };
        j = j + 1;
        if sym_at(toks, j) != 5 {
            proof {
                    assert forall|sx: StmtV| #[trigger] stmt_from_tokens(
                        toks_view(toks@),
                        i as int,
                        sx,
                    ) implies (MAX_DEPTH as int) < depth as int + stmt_depth(sx) by {
                        lemma_keywords_distinct();
                        lemma_stmt_starts_ident(toks_view(toks@), i as int, sx);
                        lemma_stmt_depth_nonneg(sx);
                        match sx {
                            StmtV::Loop { body, .. } => {
                                lemma_block_depth_nonneg(body);
                                lemma_block_end_ge(i as int + 3, body);
                            },
                            _ => {},
                        }
                    }
                }
                return Err(err_at(toks, j, input_len, ErrorKind::ExpectedParen));
        }
        j = j + 1;
        let st = Statement::Tension { sensor, cmp, param, action, v0, v1 };
        proof {
            assert(stmt_from_tokens(toks_view(toks@), i as int, stmt_view(st)));
        }
        Ok((st, j))
    } else if kw == 3 {
        // drift <param>
        let param = match get_ident(toks, j) {
            Some(n) => n,
            None => {
                proof {
                    assert forall|sx: StmtV| #[trigger] stmt_from_tokens(
                        toks_view(toks@),
                        i as int,
                        sx,
                    ) implies (MAX_DEPTH as int) < depth as int + stmt_depth(sx) by {
                        lemma_keywords_distinct();
                        lemma_stmt_starts_ident(toks_view(toks@), i as int, sx);
                        lemma_stmt_depth_nonneg(sx);
                        match sx {
                            StmtV::Loop { body, .. } => {
                                lemma_block_depth_nonneg(body);
                                lemma_block_end_ge(i as int + 3, body);
                            },
                            _ => {},
                        }
                    }
                }
                return Err(err_at(toks, j, input_len, ErrorKind::ExpectedName));
            },
        };
        j = j + 1;
        let st = Statement::Drift { param };
        proof {
            assert(stmt_from_tokens(toks_view(toks@), i as int, stmt_view(st)));
        }
        Ok((st, j))
    } else if kw == 4 {
        // resolve <sensor>.<param>
        let sensor = match get_ident(toks, j) {
            Some(n) => n,
            None => {
                proof {
                    assert forall|sx: StmtV| #[trigger] stmt_from_tokens(
                        toks_view(toks@),
                        i as int,
                        sx,
                    ) implies (MAX_DEPTH as int) < depth as int + stmt_depth(sx) by {
                        lemma_keywords_distinct();
                        lemma_stmt_starts_ident(toks_view(toks@), i as int, sx);
                        lemma_stmt_depth_nonneg(sx);
                        match sx {
                            StmtV::Loop { body, .. } => {
                                lemma_block_depth_nonneg(body);
                                lemma_block_end_ge(i as int + 3, body);
                            },
                            _ => {},
                        }
                    }
                }
                return Err(err_at(toks, j, input_len, ErrorKind::ExpectedName));
            },
        };
        j = j + 1;
        if sym_at(toks, j) != 9 {
            proof {
                    assert forall|sx: StmtV| #[trigger] stmt_from_tokens(
                        toks_view(toks@),
                        i as int,
                        sx,
                    ) implies (MAX_DEPTH as int) < depth as int + stmt_depth(sx) by {
                        lemma_keywords_distinct();
                        lemma_stmt_starts_ident(toks_view(toks@), i as int, sx);
                        lemma_stmt_depth_nonneg(sx);
                        match sx {
                            StmtV::Loop { body, .. } => {
                                lemma_block_depth_nonneg(body);
                                lemma_block_end_ge(i as int + 3, body);
                            },
                            _ => {},
                        }
                    }
                }
                return Err(err_at(toks, j, input_len, ErrorKind::ExpectedDot));
        }
        j = j + 1;
        let param = match get_ident(toks, j) {
            Some(n) => n,
            None => {
                proof {
                    assert forall|sx: StmtV| #[trigger] stmt_from_tokens(
                        toks_view(toks@),
                        i as int,
                        sx,
                    ) implies (MAX_DEPTH as int) < depth as int + stmt_depth(sx) by {
                        lemma_keywords_distinct();
                        lemma_stmt_starts_ident(toks_view(toks@), i as int, sx);
                        lemma_stmt_depth_nonneg(sx);
                        match sx {
                            StmtV::Loop { body, .. } => {
                                lemma_block_depth_nonneg(body);
                                lemma_block_end_ge(i as int + 3, body);
                            },
                            _ => {},
                        }
                    }
                }
                return Err(err_at(toks, j, input_len, ErrorKind::ExpectedName));
            },
        };
        j = j + 1;
        let st = Statement::Resolve { sensor, param };
        proof {
            assert(stmt_from_tokens(toks_view(toks@), i as int, stmt_view(st)));
        }
        Ok((st, j))
    } else if kw == 5 {
        // metaweave <primitive> <action>
        let primitive = match get_ident(toks, j) {
            Some(n) => n,
            None => {
                proof {
                    assert forall|sx: StmtV| #[trigger] stmt_from_tokens(
                        toks_view(toks@),
                        i as int,
                        sx,
                    ) implies (MAX_DEPTH as int) < depth as int + stmt_depth(sx) by {
                        lemma_keywords_distinct();
                        lemma_stmt_starts_ident(toks_view(toks@), i as int, sx);
                        lemma_stmt_depth_nonneg(sx);
                        match sx {
                            StmtV::Loop { body, .. } => {
                                lemma_block_depth_nonneg(body);
                                lemma_block_end_ge(i as int + 3, body);
                            },
                            _ => {},
                        }
                    }
                }
                return Err(err_at(toks, j, input_len, ErrorKind::ExpectedName));
            },
        };
        j = j + 1;
        let action = match get_ident(toks, j) {
            Some(n) => n,
            None => {
                proof {
                    assert forall|sx: StmtV| #[trigger] stmt_from_tokens(
                        toks_view(toks@),
                        i as int,
                        sx,
                    ) implies (MAX_DEPTH as int) < depth as int + stmt_depth(sx) by {
                        lemma_keywords_distinct();
                        lemma_stmt_starts_ident(toks_view(toks@), i as int, sx);
                        lemma_stmt_depth_nonneg(sx);
                        match sx {
                            StmtV::Loop { body, .. } => {
                                lemma_block_depth_nonneg(body);
                                lemma_block_end_ge(i as int + 3, body);
                            },
                            _ => {},
                        }
                    }
                }
                return Err(err_at(toks, j, input_len, ErrorKind::ExpectedName));
            },
        };
        j = j + 1;
        let st = Statement::Metaweave { primitive, action };
        proof {
            assert(stmt_from_tokens(toks_view(toks@), i as int, stmt_view(st)));
        }
        Ok((st, j))
    } else if kw == 6 {
        // extend <field> <param> <value> <condition>
        let field = match get_ident(toks, j) {
            Some(n) => n,
            None => {
                proof {
                    assert forall|sx: StmtV| #[trigger] stmt_from_tokens(
                        toks_view(toks@),
                        i as int,
                        sx,
                    ) implies (MAX_DEPTH as int) < depth as int + stmt_depth(sx) by {
                        lemma_keywords_distinct();
                        lemma_stmt_starts_ident(toks_view(toks@), i as int, sx);
                        lemma_stmt_depth_nonneg(sx);
                        match sx {
                            StmtV::Loop { body, .. } => {
                                lemma_block_depth_nonneg(body);
                                lemma_block_end_ge(i as int + 3, body);
                            },
                            _ => {},
                        }
                    }
                }
                return Err(err_at(toks, j, input_len, ErrorKind::ExpectedName));
            },
        };
        j = j + 1;
        let param = match get_ident(toks, j) {
            Some(n) => n,
            None => {
                proof {
                    assert forall|sx: StmtV| #[trigger] stmt_from_tokens(
                        toks_view(toks@),
                        i as int,
                        sx,
                    ) implies (MAX_DEPTH as int) < depth as int + stmt_depth(sx) by {
                        lemma_keywords_distinct();
                        lemma_stmt_starts_ident(toks_view(toks@), i as int, sx);
                        lemma_stmt_depth_nonneg(sx);
                        match sx {
                            StmtV::Loop { body, .. } => {
                                lemma_block_depth_nonneg(body);
                                lemma_block_end_ge(i as int + 3, body);
                            },
                            _ => {},
                        }
                    }
                }
                return Err(err_at(toks, j, input_len, ErrorKind::ExpectedName));
            },
        };
        j = j + 1;
        let value = match get_num(toks, j) {
            Some((v, _, _)) => v,
            None => {
                proof {
                    assert forall|sx: StmtV| #[trigger] stmt_from_tokens(
                        toks_view(toks@),
                        i as int,
                        sx,
                    ) implies (MAX_DEPTH as int) < depth as int + stmt_depth(sx) by {
                        lemma_keywords_distinct();
                        lemma_stmt_starts_ident(toks_view(toks@), i as int, sx);
                        lemma_stmt_depth_nonneg(sx);
                        match sx {
                            StmtV::Loop { body, .. } => {
                                lemma_block_depth_nonneg(body);
                                lemma_block_end_ge(i as int + 3, body);
                            },
                            _ => {},
                        }
                    }
                }
                return Err(err_at(toks, j, input_len, ErrorKind::ExpectedNumber));
            },
        };
        j = j + 1;
        let condition = match get_ident(toks, j) {
            Some(c) => token_contains_true(c.as_slice()),
            None => {
                proof {
                    assert forall|sx: StmtV| #[trigger] stmt_from_tokens(
                        toks_view(toks@),
                        i as int,
                        sx,
                    ) implies (MAX_DEPTH as int) < depth as int + stmt_depth(sx) by {
                        lemma_keywords_distinct();
                        lemma_stmt_starts_ident(toks_view(toks@), i as int, sx);
                        lemma_stmt_depth_nonneg(sx);
                        match sx {
                            StmtV::Loop { body, .. } => {
                                lemma_block_depth_nonneg(body);
                                lemma_block_end_ge(i as int + 3, body);
                            },
                            _ => {},
                        }
                    }
                }
                return Err(err_at(toks, j, input_len, ErrorKind::ExpectedCondition));
            },
        };
        j = j + 1;
        let st = Statement::Extend { field, param, value, condition };
        proof {
            assert(stmt_from_tokens(toks_view(toks@), i as int, stmt_view(st)));
        }
        Ok((st, j))
    } else if kw == 7 {
        // loop <count> { <statements> }
        let count = match get_num(toks, j) {
            Some((_, c, true)) => c,
            _ => {
                proof {
                    assert forall|sx: StmtV| #[trigger] stmt_from_tokens(
                        toks_view(toks@),
                        i as int,
                        sx,
                    ) implies (MAX_DEPTH as int) < depth as int + stmt_depth(sx) by {
                        lemma_keywords_distinct();
                        lemma_stmt_starts_ident(toks_view(toks@), i as int, sx);
                        lemma_stmt_depth_nonneg(sx);
                        match sx {
                            StmtV::Loop { body, .. } => {
                                lemma_block_depth_nonneg(body);
                                lemma_block_end_ge(i as int + 3, body);
                            },
                            _ => {},
                        }
                    }
                }
                return Err(err_at(toks, j, input_len, ErrorKind::ExpectedCount));
            },
        };
        j = j + 1;
        if sym_at(toks, j) != 7 {
            proof {
                    assert forall|sx: StmtV| #[trigger] stmt_from_tokens(
                        toks_view(toks@),
                        i as int,
                        sx,
                    ) implies (MAX_DEPTH as int) < depth as int + stmt_depth(sx) by {
                        lemma_keywords_distinct();
                        lemma_stmt_starts_ident(toks_view(toks@), i as int, sx);
                        lemma_stmt_depth_nonneg(sx);
                        match sx {
                            StmtV::Loop { body, .. } => {
                                lemma_block_depth_nonneg(body);
                                lemma_block_end_ge(i as int + 3, body);
                            },
                            _ => {},
                        }
                    }
                }
                return Err(err_at(toks, j, input_len, ErrorKind::ExpectedBrace));
        }
        j = j + 1;
        if depth >= MAX_DEPTH {
            proof {
                    assert forall|sx: StmtV| #[trigger] stmt_from_tokens(
                        toks_view(toks@),
                        i as int,
                        sx,
                    ) implies (MAX_DEPTH as int) < depth as int + stmt_depth(sx) by {
                        lemma_keywords_distinct();
                        lemma_stmt_starts_ident(toks_view(toks@), i as int, sx);
                        lemma_stmt_depth_nonneg(sx);
                        match sx {
                            StmtV::Loop { body, .. } => {
                                lemma_block_depth_nonneg(body);
                                lemma_block_end_ge(i as int + 3, body);
                            },
                            _ => {},
                        }
                    }
                }
                return Err(WeaveError::ResourceExhaustion);
        }
        match parse_stmts(toks, j, depth + 1, input_len, true) {
            Ok((body, next)) => {
                let st = Statement::Loop { count, body };
                proof {
                    let tv = toks_view(toks@);
                    let bv = block_view(st->Loop_body@);
                    assert(stmt_view(st) == (StmtV::Loop { count: count as nat, body: bv }));
                    lemma_block_end_ge(j as int, bv);
                    assert(stmt_from_tokens(tv, i as int, stmt_view(st)));
                }
                Ok((st, next))
            },
            Err(e) => {
                proof {
                    assert forall|sx: StmtV| #[trigger] stmt_from_tokens(
                        toks_view(toks@),
                        i as int,
                        sx,
                    ) implies (MAX_DEPTH as int) < depth as int + stmt_depth(sx) by {
                        lemma_keywords_distinct();
                        lemma_stmt_starts_ident(toks_view(toks@), i as int, sx);
                        lemma_stmt_depth_nonneg(sx);
                        match sx {
                            StmtV::Loop { body, .. } => {
                                lemma_block_depth_nonneg(body);
                                lemma_block_end_ge(i as int + 3, body);
                                assert(block_from_tokens(toks_view(toks@), j as int, body)
                                    && block_terminates(
                                    toks_view(toks@),
                                    j as int,
                                    body,
                                    true,
                                ));
                            },
                            _ => {},
                        }
                    }
                }
                Err(e)
            },
        }
    } else {
        proof {
                    assert forall|sx: StmtV| #[trigger] stmt_from_tokens(
                        toks_view(toks@),
                        i as int,
                        sx,
                    ) implies (MAX_DEPTH as int) < depth as int + stmt_depth(sx) by {
                        lemma_keywords_distinct();
                        lemma_stmt_starts_ident(toks_view(toks@), i as int, sx);
                        lemma_stmt_depth_nonneg(sx);
                        match sx {
                            StmtV::Loop { body, .. } => {
                                lemma_block_depth_nonneg(body);
                                lemma_block_end_ge(i as int + 3, body);
                            },
                            _ => {},
                        }
                    }
                }
                Err(
            WeaveError::Syntax(SyntaxError { pos: toks[i].pos, kind: ErrorKind::ExpectedStatement }),
        )
    }
}

/// A syntax error at the position of token `j`, or at the end of the text.
fn err_at(toks: &Vec<Token>, j: usize, input_len: usize, kind: ErrorKind) -> WeaveError {
    WeaveError::Syntax(SyntaxError { pos: tok_pos(toks, j, input_len), kind })
}

proof fn lemma_block_view_snoc(ss: Seq<Statement>, s: Statement)
    ensures
        block_view(ss.push(s)) == block_view(ss).push(stmt_view(s)),
{
    lemma_block_view_len(ss.push(s));
    lemma_block_view_len(ss);
    assert forall|k: int| 0 <= k < ss.len() + 1 implies block_view(ss.push(s))[k] == block_view(
        ss,
    ).push(stmt_view(s))[k] by {
        if k < ss.len() {
            assert(ss.push(s)[k] == ss[k]);
        } else {
            assert(ss.push(s)[k] == s);
        }
    }
    assert(block_view(ss.push(s)) =~= block_view(ss).push(stmt_view(s)));
}

/// Parses statements until the end of the tokens, or, inside a loop body,
/// until the closing brace, which is consumed.
fn parse_stmts(toks: &Vec<Token>, start: usize, depth: usize, input_len: usize, in_block: bool)
    -> (r: Result<(Vec<Statement>, usize), WeaveError>)
    requires
        start <= toks@.len(),
    ensures
        r is Ok ==> start < r->Ok_0.1 <= toks@.len() || (start == r->Ok_0.1 && !in_block),
        r matches Ok(p) ==> ({
            let tv = toks_view(toks@);
            let bv = block_view(p.0@);
            &&& block_from_tokens(tv, start as int, bv)
            &&& (in_block ==> p.1 as int == block_end(start as int, bv) + 1 && tv[p.1 - 1]
                == TokV::RBrace)
            &&& (!in_block ==> p.1 as int == block_end(start as int, bv) && p.1
                == toks@.len())
        }),
        start == toks@.len() && !in_block ==> r is Ok,
        r is Err ==> forall|bx: Seq<StmtV>|
            #[trigger] block_from_tokens(toks_view(toks@), start as int, bx) && block_terminates(
                toks_view(toks@),
                start as int,
                bx,
                in_block,
            ) ==> (MAX_DEPTH as int) < depth as int + block_depth(bx),
    decreases toks@.len() - start, 1nat,
{
    let ghost tv = toks_view(toks@);
    proof {
        lemma_tv_len(toks@);
    }
    let mut stmts: Vec<Statement> = Vec::new();
    let mut i = start;
    while i < toks.len()
        invariant
            start <= i <= toks@.len(),
            tv == toks_view(toks@),
            tv.len() == toks@.len(),
            block_from_tokens(tv, start as int, block_view(stmts@)),
            i as int == block_end(start as int, block_view(stmts@)),
        decreases toks@.len() - i,
    {
        if in_block && sym_at(toks, i) == 8 {
            proof {
                lemma_tv_len(toks@);
            }
            return Ok((stmts, i + 1));
        }
        proof {
            assert(toks@.len() - i <= toks@.len() - start);
        }
        match parse_stmt(toks, i, depth, input_len) {
            Ok((s, next)) => {
                proof {
                    lemma_block_from_snoc(tv, start as int, block_view(stmts@), stmt_view(s));
                    lemma_block_view_snoc(stmts@, s);
                }
                stmts.push(s);
                i = next;
            },
            Err(e) => {
                proof {
                    assert forall|bx: Seq<StmtV>|
                        #[trigger] block_from_tokens(tv, start as int, bx) && block_terminates(
                            tv,
                            start as int,
                            bx,
                            in_block,
                        ) implies (MAX_DEPTH as int) < depth as int + block_depth(bx) by {
                        lemma_block_split(tv, start as int, block_view(stmts@), bx, in_block);
                        let b2 = choose|b2: Seq<StmtV>|
                            #[trigger] block_from_tokens(tv, block_end(start as int, block_view(stmts@)), b2)
                                && block_terminates(
                                tv,
                                block_end(start as int, block_view(stmts@)),
                                b2,
                                in_block,
                            ) && block_depth(b2) <= block_depth(bx);
                        assert(block_from_tokens(tv, i as int, b2));
                        if b2.len() == 0 {
                        } else {
                            assert(stmt_from_tokens(tv, i as int, b2[0]));
                            lemma_stmt_depth_nonneg(b2[0]);
                            lemma_block_depth_nonneg(b2.drop_first());
                        }
                    }
                }
                return Err(e);
            },
        }
    }
    if in_block {
        proof {
            assert forall|bx: Seq<StmtV>|
                #[trigger] block_from_tokens(tv, start as int, bx) && block_terminates(
                    tv,
                    start as int,
                    bx,
                    true,
                ) implies (MAX_DEPTH as int) < depth as int + block_depth(bx) by {
                lemma_block_split(tv, start as int, block_view(stmts@), bx, true);
                let b2 = choose|b2: Seq<StmtV>|
                    #[trigger] block_from_tokens(tv, block_end(start as int, block_view(stmts@)), b2)
                        && block_terminates(
                        tv,
                        block_end(start as int, block_view(stmts@)),
                        b2,
                        true,
                    ) && block_depth(b2) <= block_depth(bx);
                lemma_block_end_ge(i as int, b2);
            }
        }
        Err(WeaveError::Syntax(SyntaxError { pos: input_len, kind: ErrorKind::UnterminatedBlock }))
    } else {
        Ok((stmts, i))
    }
}

/// Parses a token stream into a program. On success the tokens spell
/// exactly the returned statements, from the first token to the last; an
/// empty stream is the empty program.
fn parse_tokens(toks: &Vec<Token>, input_len: usize) -> (r: Result<
    crate::interp::Program,
    WeaveError,
>)
    ensures
        r matches Ok(p) ==> block_from_tokens(toks_view(toks@), 0, p@) && block_end(0, p@)
            == toks@.len(),
        toks@.len() == 0 ==> r is Ok,
        r is Err ==> forall|bx: Seq<StmtV>|
            #[trigger] block_from_tokens(toks_view(toks@), 0, bx) && block_end(0, bx)
                == toks@.len() ==> (MAX_DEPTH as int) < block_depth(bx),
{
    match parse_stmts(toks, 0, 0, input_len, false) {
        Ok((stmts, end)) => {
            let p = crate::interp::Program { stmts };
            proof {
                assert(p@ == block_view(p.stmts@));
                assert(end == toks@.len());
            }
            Ok(p)
        },
        Err(e) => {
            proof {
                lemma_tv_len(toks@);
            }
            Err(e)
        },
    }
}

/// Parses a whole program: the entire text is tokenized and parsed before
/// anything executes, so a malformed program mutates nothing. A returned
/// program is grammatical for the given text: the tokens the text lexes to
/// spell it exactly, first token to last. A text that does not even lex is
/// always refused.
pub fn parse(input: &[u8]) -> (r: Result<crate::interp::Program, WeaveError>)
    ensures
        r matches Ok(p) ==> (lex_spec(input@, 0) matches Some(tvs) && block_from_tokens(
            tvs,
            0,
            p@,
        ) && block_end(0, p@) == tvs.len()),
        lex_spec(input@, 0) is None ==> r is Err,
        lex_spec(input@, 0) == Some(Seq::<TokV>::empty()) ==> r is Ok,
        r is Err ==> lex_spec(input@, 0) is None || (lex_spec(input@, 0) matches Some(tvs)
            && forall|bx: Seq<StmtV>|
            #[trigger] block_from_tokens(tvs, 0, bx) && block_end(0, bx) == tvs.len() ==> (
            MAX_DEPTH as int) < block_depth(bx)),
{
    let toks = match tokenize(input) {
        Ok(t) => t,
        Err(e) => {
            return Err(WeaveError::Syntax(e));
        },
    };
    let r = parse_tokens(&toks, input.len());
    proof {
        match &r {
            Ok(p) => {
                lemma_tv_len(toks@);
                assert(block_from_tokens(toks_view(toks@), 0, p@) && block_end(0, p@)
                    == toks_view(toks@).len());
            },
            Err(_) => {},
        }
    }
    r
}

} // verus!
